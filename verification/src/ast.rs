//! Unit extraction: a parsed file is reduced to an ordered list of
//! identified top-level declarations. The concrete parse comes from
//! tree-sitter behind a small trusted boundary; with the grammar fixed by
//! the build, parsing is a function of the text alone, so its result is
//! given a name per dialect. Everything that walks the resulting tree,
//! classifies nodes and resolves names is verified.

use vstd::prelude::*;
use vstd::slice::{slice_subrange, slice_to_vec};
use vstd::string::StringSliceAdditionalSpecFns;

use crate::bytes::{bytes_eq, spec_trim_quotes, trim_quotes};

verus! {

/// Grammar dialect used to parse a file.
#[derive(Debug, Clone, Copy)]
pub enum AstLanguage {
    TypeScript,
    Tsx,
}

/// Why a file could not be parsed. Fatal for that file: no merge is
/// attempted on text without a syntax tree.
#[derive(Debug, Clone, Copy, PartialEq, Eq, Structural)]
pub enum ParseFailure {
    /// The grammar could not be configured on the parser.
    LanguageUnavailable,
    /// The parser returned no tree for the text.
    Unparsable,
}

/// The fixed vocabulary of tracked top-level declaration kinds.
#[derive(Debug, Clone, Copy, PartialEq, Eq, Structural)]
pub enum UnitKind {
    Function,
    Class,
    Lexical,
    Variable,
    Import,
    Method,
}

/// A plain-data mirror of one parse-tree node: its kind tag, its byte
/// range in the parsed text, and its children in order.
pub struct CstNode {
    pub kind: Vec<u8>,
    pub start: usize,
    pub end: usize,
    pub children: Vec<CstNode>,
}

/// Mathematical value of a parse-tree node.
pub struct CstV {
    pub kind: Seq<u8>,
    pub start: usize,
    pub end: usize,
    pub children: Seq<CstV>,
}

impl CstV {
    /// Every byte range in this subtree lies within a buffer of length `len`.
    pub open spec fn wf(self, len: nat) -> bool
        decreases self,
    {
        &&& self.start <= self.end <= len
        &&& forall|i: int| 0 <= i < self.children.len() ==> (#[trigger] self.children[i]).wf(len)
    }

    /// Siblings come in source order throughout this subtree: each child
    /// ends at or before the next one starts.
    pub open spec fn ordered(self) -> bool
        decreases self,
    {
        &&& forall|i: int|
            0 <= i < self.children.len() - 1 ==> (#[trigger] self.children[i]).end
                <= self.children[i + 1].start
        &&& forall|i: int| 0 <= i < self.children.len() ==> (#[trigger] self.children[i]).ordered()
    }
}

/// Mathematical value of a `CstNode`.
pub open spec fn node_v(n: CstNode) -> CstV
    decreases n,
{
    CstV { kind: n.kind@, start: n.start, end: n.end, children: nodes_v(n.children@) }
}

/// Mathematical values of a node list, in order.
pub open spec fn nodes_v(s: Seq<CstNode>) -> Seq<CstV>
    decreases s,
{
    if s.len() == 0 {
        Seq::empty()
    } else {
        seq![node_v(s[0])] + nodes_v(s.drop_first())
    }
}

pub proof fn lemma_nodes_v(s: Seq<CstNode>)
    ensures
        nodes_v(s).len() == s.len(),
        forall|i: int| 0 <= i < s.len() ==> nodes_v(s)[i] == node_v(s[i]),
    decreases s.len(),
{
    if s.len() > 0 {
        lemma_nodes_v(s.drop_first());
        assert forall|i: int| 0 <= i < s.len() implies nodes_v(s)[i] == node_v(s[i]) by {
            if i > 0 {
                assert(nodes_v(s)[i] == nodes_v(s.drop_first())[i - 1]);
                assert(s.drop_first()[i - 1] == s[i]);
            }
        }
    }
}

proof fn lemma_nodes_v_drop_first(s: Seq<CstNode>)
    requires
        s.len() > 0,
    ensures
        nodes_v(s.subrange(1, s.len() as int)) == nodes_v(s).drop_first(),
{
    lemma_nodes_v(s);
    lemma_nodes_v(s.subrange(1, s.len() as int));
    assert(nodes_v(s.subrange(1, s.len() as int)) =~= nodes_v(s).drop_first()) by {
        assert(forall|i: int|
            0 <= i < s.len() - 1 ==> #[trigger] s.subrange(1, s.len() as int)[i] == s[i + 1]);
    }
}

/// A recognized top-level declaration: kind, optional identity name, and
/// the byte range it occupies in its file.
#[derive(Debug, Clone)]
pub struct TopLevel {
    pub kind: UnitKind,
    pub name: Option<Vec<u8>>,
    pub start_byte: usize,
    pub end_byte: usize,
}

/// Mathematical value of a `TopLevel`.
pub struct UnitV {
    pub kind: UnitKind,
    pub name: Option<Seq<u8>>,
    pub start_byte: usize,
    pub end_byte: usize,
}

pub open spec fn opt_bytes_view(o: Option<Vec<u8>>) -> Option<Seq<u8>> {
    match o {
        Some(v) => Some(v@),
        None => None,
    }
}

impl View for TopLevel {
    type V = UnitV;

    open spec fn view(&self) -> UnitV {
        UnitV {
            kind: self.kind,
            name: opt_bytes_view(self.name),
            start_byte: self.start_byte,
            end_byte: self.end_byte,
        }
    }
}

/// A parsed file: its text and its top-level units in appearance order.
#[derive(Debug, Clone)]
pub struct AstFile {
    pub code: Vec<u8>,
    pub units: Vec<TopLevel>,
}

/// Mathematical value of an `AstFile`.
pub struct FileV {
    pub code: Seq<u8>,
    pub units: Seq<UnitV>,
}

impl FileV {
    /// Every unit's byte range lies within the file's text.
    pub open spec fn wf(self) -> bool {
        forall|i: int|
            0 <= i < self.units.len() ==> ((#[trigger] self.units[i]).start_byte
                <= self.units[i].end_byte <= self.code.len())
    }
}

impl View for AstFile {
    type V = FileV;

    open spec fn view(&self) -> FileV {
        FileV { code: self.code@, units: self.units@.map_values(|u: TopLevel| u@) }
    }
}

/// Kind tag a tracked declaration carries, if the node is tracked at all.
pub open spec fn spec_unit_kind(k: Seq<u8>) -> Option<UnitKind> {
    if k == "function_declaration".spec_bytes() {
        Some(UnitKind::Function)
    } else if k == "class_declaration".spec_bytes() {
        Some(UnitKind::Class)
    } else if k == "lexical_declaration".spec_bytes() {
        Some(UnitKind::Lexical)
    } else if k == "variable_declaration".spec_bytes() {
        Some(UnitKind::Variable)
    } else if k == "import_statement".spec_bytes() {
        Some(UnitKind::Import)
    } else if k == "method_definition".spec_bytes() {
        Some(UnitKind::Method)
    } else {
        None
    }
}

/// The tree-sitter kind string for each tracked declaration kind, used in
/// conflict descriptions.
pub open spec fn spec_kind_label(k: UnitKind) -> Seq<u8> {
    match k {
        UnitKind::Function => "function_declaration".spec_bytes(),
        UnitKind::Class => "class_declaration".spec_bytes(),
        UnitKind::Lexical => "lexical_declaration".spec_bytes(),
        UnitKind::Variable => "variable_declaration".spec_bytes(),
        UnitKind::Import => "import_statement".spec_bytes(),
        UnitKind::Method => "method_definition".spec_bytes(),
    }
}

pub fn unit_kind_of(k: &[u8]) -> (r: Option<UnitKind>)
    ensures
        r == spec_unit_kind(k@),
{
    if bytes_eq(k, "function_declaration".as_bytes()) {
        Some(UnitKind::Function)
    } else if bytes_eq(k, "class_declaration".as_bytes()) {
        Some(UnitKind::Class)
    } else if bytes_eq(k, "lexical_declaration".as_bytes()) {
        Some(UnitKind::Lexical)
    } else if bytes_eq(k, "variable_declaration".as_bytes()) {
        Some(UnitKind::Variable)
    } else if bytes_eq(k, "import_statement".as_bytes()) {
        Some(UnitKind::Import)
    } else if bytes_eq(k, "method_definition".as_bytes()) {
        Some(UnitKind::Method)
    } else {
        None
    }
}

/// The tree-sitter kind string for a tracked kind.
pub fn kind_label(k: UnitKind) -> (r: Vec<u8>)
    ensures
        r@ == spec_kind_label(k),
{
    match k {
        UnitKind::Function => slice_to_vec("function_declaration".as_bytes()),
        UnitKind::Class => slice_to_vec("class_declaration".as_bytes()),
        UnitKind::Lexical => slice_to_vec("lexical_declaration".as_bytes()),
        UnitKind::Variable => slice_to_vec("variable_declaration".as_bytes()),
        UnitKind::Import => slice_to_vec("import_statement".as_bytes()),
        UnitKind::Method => slice_to_vec("method_definition".as_bytes()),
    }
}

/// Is this node an identifier (or, when `ty` is set, a type identifier)?
pub open spec fn is_ident_node(n: CstV, ty: bool) -> bool {
    n.kind == "identifier".spec_bytes() || (ty && n.kind == "type_identifier".spec_bytes())
}

/// Is this node a string literal?
pub open spec fn is_string_node(n: CstV) -> bool {
    n.kind == "string".spec_bytes() || n.kind == "string_literal".spec_bytes()
}

/// Byte range of the first identifier found by a depth-first, preorder
/// search through the nodes and their descendants.
pub open spec fn spec_find_ident(s: Seq<CstV>, ty: bool) -> Option<(usize, usize)>
    decreases s,
{
    if s.len() == 0 {
        None
    } else if is_ident_node(s[0], ty) {
        Some((s[0].start, s[0].end))
    } else if spec_find_ident(s[0].children, ty) is Some {
        spec_find_ident(s[0].children, ty)
    } else {
        spec_find_ident(s.drop_first(), ty)
    }
}

/// A span found among well-formed nodes is itself well formed.
proof fn lemma_find_ident_wf(s: Seq<CstV>, ty: bool, len: nat)
    requires
        forall|i: int| 0 <= i < s.len() ==> (#[trigger] s[i]).wf(len),
    ensures
        match spec_find_ident(s, ty) {
            Some(sp) => sp.0 <= sp.1 <= len,
            None => true,
        },
    decreases s,
{
    if s.len() == 0 {
    } else if is_ident_node(s[0], ty) {
        assert(s[0].wf(len));
    } else {
        assert(s[0].wf(len));
        lemma_find_ident_wf(s[0].children, ty, len);
        assert(forall|i: int|
            0 <= i < s.drop_first().len() ==> (#[trigger] s.drop_first()[i]).wf(len));
        lemma_find_ident_wf(s.drop_first(), ty, len);
    }
}

fn find_ident(nodes: &[CstNode], ty: bool) -> (r: Option<(usize, usize)>)
    ensures
        r == spec_find_ident(nodes_v(nodes@), ty),
    decreases nodes@,
{
    if nodes.len() == 0 {
        return None;
    }
    let n = &nodes[0];
    proof {
        lemma_nodes_v(nodes@);
        assert(nodes_v(nodes@)[0] == node_v(nodes@[0]));
    }
    let isid = bytes_eq(n.kind.as_slice(), "identifier".as_bytes());
    let istid = ty && bytes_eq(n.kind.as_slice(), "type_identifier".as_bytes());
    if isid || istid {
        return Some((n.start, n.end));
    }
    let sub = find_ident(n.children.as_slice(), ty);
    match sub {
        Some(p) => Some(p),
        None => {
            proof {
                lemma_nodes_v_drop_first(nodes@);
            }
            find_ident(slice_subrange(nodes, 1, nodes.len()), ty)
        },
    }
}

/// Name of an import statement: the module-specifier string literal among
/// its direct children, with quote bytes stripped.
pub open spec fn spec_import_name(s: Seq<CstV>, code: Seq<u8>) -> Option<Seq<u8>>
    decreases s,
{
    if s.len() == 0 {
        None
    } else if is_string_node(s[0]) {
        Some(spec_trim_quotes(code.subrange(s[0].start as int, s[0].end as int)))
    } else {
        spec_import_name(s.drop_first(), code)
    }
}

fn import_name(nodes: &[CstNode], code: &[u8]) -> (r: Option<Vec<u8>>)
    requires
        forall|i: int|
            0 <= i < nodes@.len() ==> (#[trigger] node_v(nodes@[i])).wf(code@.len()),
    ensures
        opt_bytes_view(r) == spec_import_name(nodes_v(nodes@), code@),
    decreases nodes@,
{
    if nodes.len() == 0 {
        return None;
    }
    let n = &nodes[0];
    proof {
        lemma_nodes_v(nodes@);
        assert(nodes_v(nodes@)[0] == node_v(nodes@[0]));
    }
    let iss = bytes_eq(n.kind.as_slice(), "string".as_bytes())
        || bytes_eq(n.kind.as_slice(), "string_literal".as_bytes());
    if iss {
        assert(node_v(nodes@[0]).wf(code@.len()));
        return Some(trim_quotes(slice_subrange(code, n.start, n.end)));
    }
    proof {
        lemma_nodes_v_drop_first(nodes@);
        assert(forall|i: int|
            0 <= i < nodes@.subrange(1, nodes@.len() as int).len() ==> #[trigger] nodes@.subrange(
                1,
                nodes@.len() as int,
            )[i] == nodes@[i + 1]);
    }
    import_name(slice_subrange(nodes, 1, nodes.len()), code)
}

/// Resolved identity name of a tracked top-level node, if any.
pub open spec fn spec_unit_name(n: CstV, code: Seq<u8>) -> Option<Seq<u8>> {
    if n.kind == "import_statement".spec_bytes() {
        spec_import_name(n.children, code)
    } else if n.kind == "lexical_declaration".spec_bytes() || n.kind
        == "variable_declaration".spec_bytes() {
        match spec_find_ident(n.children, false) {
            Some(sp) => Some(code.subrange(sp.0 as int, sp.1 as int)),
            None => None,
        }
    } else {
        match spec_find_ident(n.children, true) {
            Some(sp) => Some(code.subrange(sp.0 as int, sp.1 as int)),
            None => None,
        }
    }
}

pub fn unit_name(n: &CstNode, code: &[u8]) -> (r: Option<Vec<u8>>)
    requires
        node_v(*n).wf(code@.len()),
    ensures
        opt_bytes_view(r) == spec_unit_name(node_v(*n), code@),
{
    proof {
        lemma_nodes_v(n.children@);
    }
    if bytes_eq(n.kind.as_slice(), "import_statement".as_bytes()) {
        assert forall|i: int| 0 <= i < n.children@.len() implies (#[trigger] node_v(
            n.children@[i],
        )).wf(code@.len()) by {
            assert(node_v(*n).children[i].wf(code@.len()));
        }
        return import_name(n.children.as_slice(), code);
    }
    let ty = !(bytes_eq(n.kind.as_slice(), "lexical_declaration".as_bytes()) || bytes_eq(
        n.kind.as_slice(),
        "variable_declaration".as_bytes(),
    ));
    proof {
        lemma_find_ident_wf(node_v(*n).children, ty, code@.len());
    }
    match find_ident(n.children.as_slice(), ty) {
        Some((s, e)) => Some(crate::bytes::copy_range(code, s, e)),
        None => None,
    }
}

/// First direct child whose kind is in the tracked vocabulary.
pub open spec fn spec_first_tracked(s: Seq<CstV>) -> Option<int>
    decreases s.len(),
{
    if s.len() == 0 {
        None
    } else if spec_unit_kind(s[0].kind) is Some {
        Some(0int)
    } else {
        match spec_first_tracked(s.drop_first()) {
            Some(i) => Some(i + 1),
            None => None,
        }
    }
}

fn first_tracked(nodes: &[CstNode]) -> (r: Option<usize>)
    ensures
        match r {
            Some(i) => {
                &&& spec_first_tracked(nodes_v(nodes@)) == Some(i as int)
                &&& i < nodes@.len()
                &&& spec_unit_kind(node_v(nodes@[i as int]).kind) is Some
            },
            None => spec_first_tracked(nodes_v(nodes@)) is None,
        },
    decreases nodes@.len(),
{
    proof {
        lemma_nodes_v(nodes@);
    }
    if nodes.len() == 0 {
        return None;
    }
    if unit_kind_of(nodes[0].kind.as_slice()).is_some() {
        return Some(0);
    }
    proof {
        lemma_nodes_v_drop_first(nodes@);
    }
    match first_tracked(slice_subrange(nodes, 1, nodes.len())) {
        Some(i) => Some(i + 1),
        None => None,
    }
}

/// The units contributed by one direct child of the root: the node itself
/// when its kind is tracked; for an export wrapper, its first tracked inner
/// declaration recorded under the wrapper's full span; nothing otherwise.
pub open spec fn spec_child_units(n: CstV, code: Seq<u8>) -> Seq<UnitV> {
    match spec_unit_kind(n.kind) {
        Some(k) => seq![
            UnitV { kind: k, name: spec_unit_name(n, code), start_byte: n.start, end_byte: n.end },
        ],
        None => {
            if n.kind == "export_statement".spec_bytes() {
                match spec_first_tracked(n.children) {
                    Some(i) => seq![
                        UnitV {
                            kind: spec_unit_kind(n.children[i].kind)->Some_0,
                            name: spec_unit_name(n.children[i], code),
                            start_byte: n.start,
                            end_byte: n.end,
                        },
                    ],
                    None => Seq::empty(),
                }
            } else {
                Seq::empty()
            }
        },
    }
}

/// All units contributed by a sequence of direct children, in order.
pub open spec fn spec_collect(s: Seq<CstV>, code: Seq<u8>) -> Seq<UnitV>
    decreases s.len(),
{
    if s.len() == 0 {
        Seq::empty()
    } else {
        spec_collect(s.drop_last(), code) + spec_child_units(s.last(), code)
    }
}

/// Walks the root's direct children and records the tracked declarations.
pub fn collect_top_level(root: &CstNode, code: &[u8]) -> (r: Vec<TopLevel>)
    requires
        node_v(*root).wf(code@.len()),
    ensures
        r@.map_values(|u: TopLevel| u@) == spec_collect(node_v(*root).children, code@),
        forall|i: int|
            0 <= i < r@.len() ==> ((#[trigger] r@[i]).start_byte <= r@[i].end_byte <= code@.len()),
{
    let ghost cv = node_v(*root).children;
    proof {
        lemma_nodes_v(root.children@);
        assert(cv.subrange(0, 0) =~= Seq::<CstV>::empty());
    }
    let mut out: Vec<TopLevel> = Vec::new();
    let mut i: usize = 0;
    while i < root.children.len()
        invariant
            node_v(*root).wf(code@.len()),
            cv == node_v(*root).children,
            cv.len() == root.children@.len(),
            forall|j: int| 0 <= j < root.children@.len() ==> cv[j] == node_v(root.children@[j]),
            i <= root.children@.len(),
            out@.map_values(|u: TopLevel| u@) == spec_collect(cv.subrange(0, i as int), code@),
            forall|j: int|
                0 <= j < out@.len() ==> ((#[trigger] out@[j]).start_byte <= out@[j].end_byte
                    <= code@.len()),
        decreases root.children@.len() - i,
    {
        let ch = &root.children[i];
        assert(cv[i as int] == node_v(root.children@[i as int]));
        assert(cv[i as int].wf(code@.len()));
        let ghost prev = out@;
        match unit_kind_of(ch.kind.as_slice()) {
            Some(k) => {
                let name = unit_name(ch, code);
                out.push(TopLevel { kind: k, name, start_byte: ch.start, end_byte: ch.end });
            },
            None => {
                if bytes_eq(ch.kind.as_slice(), "export_statement".as_bytes()) {
                    match first_tracked(ch.children.as_slice()) {
                        Some(idx) => {
                            let inner = &ch.children[idx];
                            proof {
                                lemma_nodes_v(ch.children@);
                                assert(cv[i as int].children[idx as int].wf(code@.len()));
                                assert(node_v(ch.children@[idx as int]).wf(code@.len()));
                            }
                            let k = match unit_kind_of(inner.kind.as_slice()) {
                                Some(k) => k,
                                None => {
                                    proof {
                                        assert(false);
                                    }
                                    UnitKind::Function
                                },
                            };
                            let name = unit_name(inner, code);
                            out.push(
                                TopLevel { kind: k, name, start_byte: ch.start, end_byte: ch.end },
                            );
                        },
                        None => {},
                    }
                }
            },
        }
        proof {
            assert(cv.subrange(0, i + 1 as int).drop_last() =~= cv.subrange(0, i as int));
            assert(cv.subrange(0, i + 1 as int).last() == cv[i as int]);
            assert(out@.map_values(|u: TopLevel| u@) =~= prev.map_values(|u: TopLevel| u@)
                + spec_child_units(cv[i as int], code@));
        }
        i += 1;
    }
    proof {
        assert(cv.subrange(0, cv.len() as int) =~= cv);
    }
    out
}

/// Starts never decrease along a source-ordered child list.
proof fn lemma_starts_monotone(s: Seq<CstV>, a: int, b: int)
    requires
        forall|i: int| 0 <= i < s.len() - 1 ==> (#[trigger] s[i]).end <= s[i + 1].start,
        forall|i: int| 0 <= i < s.len() ==> (#[trigger] s[i]).start <= s[i].end,
        0 <= a <= b < s.len(),
    ensures
        s[a].start <= s[b].start,
    decreases b - a,
{
    if a < b {
        lemma_starts_monotone(s, a, b - 1);
        assert(s[b - 1].end <= s[b].start);
    }
}

/// Units collected from source-ordered children appear in order of
/// nondecreasing start offset.
proof fn lemma_collect_ordered(s: Seq<CstV>, code: Seq<u8>)
    requires
        forall|i: int| 0 <= i < s.len() - 1 ==> (#[trigger] s[i]).end <= s[i + 1].start,
        forall|i: int| 0 <= i < s.len() ==> (#[trigger] s[i]).start <= s[i].end,
    ensures
        ({
            let us = spec_collect(s, code);
            &&& forall|a: int, b: int|
                0 <= a < b < us.len() ==> (#[trigger] us[a]).start_byte
                    <= (#[trigger] us[b]).start_byte
            &&& s.len() > 0 ==> forall|a: int|
                0 <= a < us.len() ==> (#[trigger] us[a]).start_byte <= s.last().start
        }),
    decreases s.len(),
{
    if s.len() > 0 {
        assert(forall|i: int|
            0 <= i < s.drop_last().len() - 1 ==> (#[trigger] s.drop_last()[i]).end
                <= s.drop_last()[i + 1].start);
        assert(forall|i: int|
            0 <= i < s.drop_last().len() ==> (#[trigger] s.drop_last()[i]).start
                <= s.drop_last()[i].end);
        lemma_collect_ordered(s.drop_last(), code);
        let prior = spec_collect(s.drop_last(), code);
        let one = spec_child_units(s.last(), code);
        let us = spec_collect(s, code);
        assert(us == prior + one);
        assert(forall|j: int| 0 <= j < one.len() ==> (#[trigger] one[j]).start_byte
            == s.last().start);
        if s.len() >= 2 {
            lemma_starts_monotone(s, s.len() - 2, s.len() - 1);
            assert(s.drop_last().last() == s[s.len() - 2]);
        }
        assert forall|a: int, b: int| 0 <= a < b < us.len() implies (#[trigger] us[a]).start_byte
            <= (#[trigger] us[b]).start_byte by {
            if b >= prior.len() {
                assert(us[b] == one[b - prior.len()]);
                if a < prior.len() {
                    assert(us[a] == prior[a]);
                    assert(s.drop_last().len() > 0);
                    assert(prior[a].start_byte <= s.drop_last().last().start);
                } else {
                    assert(us[a] == one[a - prior.len()]);
                }
            } else {
                assert(us[a] == prior[a] && us[b] == prior[b]);
            }
        }
        assert forall|a: int| 0 <= a < us.len() implies (#[trigger] us[a]).start_byte
            <= s.last().start by {
            if a < prior.len() {
                assert(us[a] == prior[a]);
                assert(s.drop_last().len() > 0 ==> prior[a].start_byte
                    <= s.drop_last().last().start);
            } else {
                assert(us[a] == one[a - prior.len()]);
            }
        }
    }
}

} // verus!

verus! {

#[verifier::external_type_specification]
#[verifier::external_body]
pub struct ExNode<'a>(tree_sitter::Node<'a>);

/// What parsing a text as plain TypeScript yields: with the grammar fixed
/// by the build, the parse result is a function of the text alone. None
/// stands for a failed parse.
pub uninterp spec fn ts_parse_of(code: Seq<u8>) -> Option<CstV>;

/// What parsing a text as TSX yields; None stands for a failed parse.
pub uninterp spec fn tsx_parse_of(code: Seq<u8>) -> Option<CstV>;

/// Helper for the two parse wrappers: copies one tree-sitter node and its
/// descendants (kind, start_byte, end_byte, children in order) into plain
/// data, converting only. Its guarantees are stated on the wrappers.
#[verifier::external_body]
fn convert_node(node: tree_sitter::Node) -> CstNode {
    let mut children = Vec::new();
    for i in 0..node.child_count() {
        if let Some(ch) = node.child(i) {
            children.push(convert_node(ch));
        }
    }
    CstNode {
        kind: node.kind().as_bytes().to_vec(),
        start: node.start_byte(),
        end: node.end_byte(),
        children,
    }
}

/// Relies on tree_sitter::Parser (new, set_language, parse),
/// tree_sitter::Tree::root_node and
/// tree_sitter_typescript::language_typescript. With no cancellation flag
/// or timeout set and the grammar fixed by the build, parsing depends on
/// the text alone, so its result carries the name `ts_parse_of`; the
/// binding documents that node byte offsets index into the parsed text
/// and that a node's children come in source order without overlapping.
/// set_language fails only on an ABI mismatch, parse returns None only
/// without a configured grammar or on cancellation; neither varies for a
/// fixed build and input.
#[verifier::external_body]
fn parse_typescript(code: &[u8]) -> (r: Result<CstNode, ParseFailure>)
    ensures
        r is Ok <==> ts_parse_of(code@) is Some,
        r matches Ok(root) ==> {
            &&& Some(node_v(root)) == ts_parse_of(code@)
            &&& node_v(root).wf(code@.len())
            &&& node_v(root).ordered()
        },
{
    let mut parser = tree_sitter::Parser::new();
    if parser.set_language(tree_sitter_typescript::language_typescript()).is_err() {
        return Err(ParseFailure::LanguageUnavailable);
    }
    match parser.parse(code, None) {
        Some(tree) => Ok(convert_node(tree.root_node())),
        None => Err(ParseFailure::Unparsable),
    }
}

/// Relies on the same tree-sitter functions as `parse_typescript`, with
/// tree_sitter_typescript::language_tsx; the result carries the name
/// `tsx_parse_of`.
#[verifier::external_body]
fn parse_tsx(code: &[u8]) -> (r: Result<CstNode, ParseFailure>)
    ensures
        r is Ok <==> tsx_parse_of(code@) is Some,
        r matches Ok(root) ==> {
            &&& Some(node_v(root)) == tsx_parse_of(code@)
            &&& node_v(root).wf(code@.len())
            &&& node_v(root).ordered()
        },
{
    let mut parser = tree_sitter::Parser::new();
    if parser.set_language(tree_sitter_typescript::language_tsx()).is_err() {
        return Err(ParseFailure::LanguageUnavailable);
    }
    match parser.parse(code, None) {
        Some(tree) => Ok(convert_node(tree.root_node())),
        None => Err(ParseFailure::Unparsable),
    }
}

/// Units collected from a well-formed, source-ordered tree stand in
/// appearance order.
proof fn lemma_root_units_ordered(rv: CstV, code: Seq<u8>)
    requires
        rv.wf(code.len()),
        rv.ordered(),
    ensures
        forall|a: int, b: int|
            0 <= a < b < spec_collect(rv.children, code).len() ==> (#[trigger] spec_collect(
                rv.children,
                code,
            )[a]).start_byte <= (#[trigger] spec_collect(rv.children, code)[b]).start_byte,
{
    assert forall|i: int| 0 <= i < rv.children.len() implies (#[trigger] rv.children[i]).start
        <= rv.children[i].end by {
        assert(rv.children[i].wf(code.len()));
    }
    lemma_collect_ordered(rv.children, code);
}

/// The named parse result for a dialect.
pub open spec fn spec_parse(lang: AstLanguage, code: Seq<u8>) -> Option<CstV> {
    match lang {
        AstLanguage::TypeScript => ts_parse_of(code),
        AstLanguage::Tsx => tsx_parse_of(code),
    }
}

/// The extraction a successful parse yields: the text itself and the
/// units collected from the named tree's direct children.
pub open spec fn spec_extract(lang: AstLanguage, code: Seq<u8>) -> FileV {
    FileV { code, units: spec_collect(spec_parse(lang, code)->Some_0.children, code) }
}

/// Parses `code` under the selected dialect and extracts its top-level
/// units. Succeeds exactly when the named parse does; on success the file
/// holds the given text verbatim, its unit list is the one collected from
/// the named tree, every unit's byte range lies within the text, and
/// units stand in appearance order.
#[verifier::rlimit(60)]
pub fn parse_typescript_to_ast(code: &[u8], lang: AstLanguage) -> (r: Result<
    AstFile,
    ParseFailure,
>)
    ensures
        r is Ok <==> spec_parse(lang, code@) is Some,
        r matches Ok(f) ==> {
            &&& f@ == spec_extract(lang, code@)
            &&& f@.wf()
            &&& forall|i: int|
                0 <= i < f@.units.len() - 1 ==> (#[trigger] f@.units[i]).start_byte
                    <= f@.units[i + 1].start_byte
        },
{
    let parsed = match lang {
        AstLanguage::TypeScript => parse_typescript(code),
        AstLanguage::Tsx => parse_tsx(code),
    };
    let root = match parsed {
        Ok(root) => root,
        Err(e) => {
            return Err(e);
        },
    };
    let units = collect_top_level(&root, code);
    proof {
        lemma_root_units_ordered(node_v(root), code@);
    }
    Ok(AstFile { code: slice_to_vec(code), units })
}

} // verus!
