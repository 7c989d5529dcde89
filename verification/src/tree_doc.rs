//! Parsing a whole tree document, turning it into a typed tree, and
//! checking that tree against a description of a type.

use vstd::prelude::*;
use vstd::string::StringSliceAdditionalSpecFns;
use vstd::utf8::{valid_utf8, encode_utf8_valid_utf8};
use crate::part::{NodeInfo, NodeInfoV, NodeName, Kind, ComplexKind, Span, Input, ParsedLine,
    line_parse, info_of, parse_line};
use crate::text::{bytes_eq, lemma_encode_injective, at_char, newline_count, line_start, trim_start_from, substr, NEWLINE,
    lemma_at_char_boundary};
use crate::shape::{ShapeTable, ShapeDef, ShapeType, ShapeField, entry_wf};
use crate::nesting::{Entry, is_parent, tree_of, has_parent, child_indices, law_nesting, preorder, labels, extends, lemma_pop,
    lemma_tree_prefix, lemma_is_parent_prefix, lemma_subtree_preorder};
use crate::scan::{find_byte, find_byte_exec, trim_start_exec, lemma_find_byte};

verus! {

/// A described line and the described lines nested under it.
#[derive(Debug, PartialEq)]
pub struct RawNode {
    pub info: NodeInfo,
    pub children: Vec<RawNode>,
    pub span: Span,
}

/// The view of a `RawNode`.
pub struct RawNodeV {
    pub info: NodeInfoV,
    pub children: Seq<RawNodeV>,
    pub span: Span,
}

impl View for RawNode {
    type V = RawNodeV;

    open spec fn view(&self) -> RawNodeV {
        raw_view(*self)
    }
}

/// The view of a `RawNode`.
pub open spec fn raw_view(n: RawNode) -> RawNodeV
    decreases n, 0nat,
{
    RawNodeV {
        info: n.info@,
        children: raw_views(n.children@, n.children@.len()),
        span: n.span,
    }
}

/// The views of the first `k` of `cs`.
pub open spec fn raw_views(cs: Seq<RawNode>, k: nat) -> Seq<RawNodeV>
    decreases cs, k,
{
    if k == 0 || k > cs.len() {
        seq![]
    } else {
        raw_views(cs, (k - 1) as nat).push(raw_view(cs[k - 1]))
    }
}

pub proof fn lemma_raw_views(cs: Seq<RawNode>, k: nat)
    requires
        k <= cs.len(),
    ensures
        raw_views(cs, k).len() == k,
        forall|i: int| 0 <= i < k ==> #[trigger] raw_views(cs, k)[i] == raw_view(cs[i]),
    decreases k,
{
    if k > 0 {
        lemma_raw_views(cs, (k - 1) as nat);
    }
}

pub proof fn lemma_raw_view(n: RawNode)
    ensures
        n@.info == n.info@,
        n@.span == n.span,
        n@.children.len() == n.children@.len(),
        forall|i: int| 0 <= i < n.children@.len() ==> #[trigger] n@.children[i] == n.children@[i]@,
{
    lemma_raw_views(n.children@, n.children@.len());
}

/// A copy of a node name.
fn clone_name(n: &NodeName) -> (r: NodeName)
    ensures
        r@ == n@,
{
    match n {
        NodeName::AsField(s) => NodeName::AsField(s.clone()),
        NodeName::Anonymous => NodeName::Anonymous,
    }
}

/// A copy of `n` and of everything under it.
fn clone_raw(n: &RawNode) -> (r: RawNode)
    ensures
        r@ == n@,
    decreases n@,
{
    proof {
        lemma_raw_view(*n);
    }
    let mut children: Vec<RawNode> = Vec::new();
    let mut i: usize = 0;
    while i < n.children.len()
        invariant
            i <= n.children@.len(),
            children@.len() == i,
            n@.children.len() == n.children@.len(),
            forall|j: int| 0 <= j < n.children@.len() ==> #[trigger] n@.children[j] == n.children@[j]@,
            forall|j: int| 0 <= j < i ==> #[trigger] children@[j]@ == n.children@[j]@,
        decreases n.children@.len() - i,
    {
        proof {
            assert(n@.children[i as int] == n.children@[i as int]@);
            assert(decreases_to!(n@ => n@.children[i as int]));
        }
        let c = clone_raw(&n.children[i]);
        children.push(c);
        i = i + 1;
    }
    let info = NodeInfo { name: clone_name(&n.info.name), kind: n.info.kind };
    let r = RawNode { info, children, span: n.span };
    proof {
        lemma_raw_view(r);
        assert(r@.children =~= n@.children);
    }
    r
}

impl Clone for RawNode {
    fn clone(&self) -> (r: Self)
        ensures
            r@ == self@,
    {
        clone_raw(self)
    }
}

/// Every described line of a document comes out of `parse_raw` exactly
/// once, and in document order: listing the tree root first, each child
/// after its parent and before its next sibling, gives back the described
/// lines as they stand in the document.
pub proof fn law_parse_raw_keeps_lines_in_order(b: Seq<u8>)
    requires
        single_root(scan_doc(b).entries),
        scan_doc(b).error is None,
        scan_doc(b).entries.len() > 0,
    ensures
        raw_outcome(scan_doc(b)) matches Ok(t) && preorder(t) == labels(
            scan_doc(b).entries,
            0,
            scan_doc(b).entries.len() as int,
        ),
{
    let e = scan_doc(b).entries;
    lemma_subtree_preorder(e, 0, e.len() as int);
}

/// An error: where it is, and what it says.
#[derive(Debug, Clone, PartialEq, Eq)]
pub enum Error {
    ParseError { span: Span, msg: String },
    ValidateError { span: Span, msg: String },
}

/// The view of an `Error`.
pub enum ErrorV {
    ParseError { span: Span, msg: Seq<char> },
    ValidateError { span: Span, msg: Seq<char> },
}

impl View for Error {
    type V = ErrorV;

    open spec fn view(&self) -> ErrorV {
        match self {
            Error::ParseError { span, msg } => ErrorV::ParseError { span: *span, msg: msg@ },
            Error::ValidateError { span, msg } => ErrorV::ValidateError { span: *span, msg: msg@ },
        }
    }
}

/// The message of a line that does not parse.
pub open spec fn line_failure_msg() -> Seq<char> {
    "Parsing Error: ContextError { context: [], cause: None }"@
}

/// The text of the error that `winnow` reports when a parser finds no
/// match: `ErrMode::Backtrack` of an empty `ContextError`, printed by its
/// `Display` impl as `Parsing Error: ` followed by the error's derived
/// `Debug` form. The contract claims that text, which the crate's source
/// shows; nothing here proves it.
#[verifier::external_body]
fn line_failure_text() -> (r: String)
    ensures
        r@ == line_failure_msg(),
{
    winnow::error::ErrMode::Backtrack(winnow::error::ContextError::<winnow::error::StrContext>::new()).to_string()
}

/// The message of a described line nested under a bare line.
pub open spec fn disconnected_msg() -> Seq<char> {
    "Metadata block after leaf content"@
}

/// The message of a document without a described line.
pub open spec fn no_root_msg() -> Seq<char> {
    "No root node found"@
}

/// The position of byte `o` of `b`, as `Span::from_offset` computes it.
pub open spec fn span_at(b: Seq<u8>, o: int) -> Span {
    Span {
        line: (newline_count(b.take(o)) + 1) as usize,
        column: (o - line_start(b.take(o)) + 1) as usize,
    }
}

/// The position given to the line `lb` that starts at byte `off` of `b`:
/// its line number, and the column of its first character that is not
/// white space.
pub open spec fn line_span(b: Seq<u8>, off: int, lb: Seq<u8>) -> Span {
    Span {
        line: (newline_count(b.take(off)) + 1) as usize,
        column: (trim_start_from(lb, 0, lb.len() as int) + 1) as usize,
    }
}

/// Whether a line holds nothing but white space.
pub open spec fn is_blank(lb: Seq<u8>) -> bool {
    trim_start_from(lb, 0, lb.len() as int) == lb.len()
}

/// The described lines read so far, and the indent of the bare line read
/// since the last described line, if any.
pub struct ScanState {
    pub entries: Seq<Entry>,
    pub last_leaf: Option<int>,
}

/// The described lines of a document, and the error that ended the reading
/// of it, if any.
pub struct ScanEnd {
    pub entries: Seq<Entry>,
    pub error: Option<ErrorV>,
}

/// Reading a document line by line from byte `off`. Lines end at `\n`;
/// blank lines are skipped; a line that does not parse ends the reading
/// with an error at the position where its parse stopped; a bare line
/// records its indent; a described line indented deeper than the bare line
/// read since the last described line ends the reading with an error, and
/// any other described line becomes the next entry.
pub open spec fn scan(b: Seq<u8>, off: int, st: ScanState) -> ScanEnd
    decreases b.len() - off,
{
    if off < 0 || off >= b.len() {
        ScanEnd { entries: st.entries, error: None }
    } else {
        let le = find_byte(b, off, NEWLINE);
        proof {
            lemma_find_byte(b, off, NEWLINE);
        }
        let next = if le < b.len() {
            le + 1
        } else {
            le
        };
        let lb = b.subrange(off, le);
        if is_blank(lb) {
            scan(b, next, st)
        } else {
            match line_parse(lb, 0) {
                Err(fp) => ScanEnd {
                    entries: st.entries,
                    error: Some(
                        ErrorV::ParseError { span: span_at(b, off + fp), msg: line_failure_msg() },
                    ),
                },
                Ok(((indent, None), _)) => scan(
                    b,
                    next,
                    ScanState { entries: st.entries, last_leaf: Some(indent) },
                ),
                Ok(((indent, Some(m)), _)) => {
                    if st.last_leaf matches Some(l) && indent > l {
                        ScanEnd {
                            entries: st.entries,
                            error: Some(
                                ErrorV::ParseError {
                                    span: line_span(b, off, lb),
                                    msg: disconnected_msg(),
                                },
                            ),
                        }
                    } else {
                        scan(
                            b,
                            next,
                            ScanState {
                                entries: st.entries.push(
                                    Entry { indent, info: info_of(m), span: line_span(b, off, lb) },
                                ),
                                last_leaf: None,
                            },
                        )
                    }
                },
            }
        }
    }
}

/// Reading a whole document.
pub open spec fn scan_doc(b: Seq<u8>) -> ScanEnd {
    scan(b, 0, ScanState { entries: seq![], last_leaf: None })
}

pub proof fn lemma_scan_extends(b: Seq<u8>, off: int, st: ScanState)
    ensures
        extends(st.entries, scan(b, off, st).entries),
    decreases b.len() - off,
{
    assert(st.entries.take(st.entries.len() as int) =~= st.entries);
    if 0 <= off < b.len() {
        let le = find_byte(b, off, NEWLINE);
        lemma_find_byte(b, off, NEWLINE);
        let next = if le < b.len() {
            le + 1
        } else {
            le
        };
        let lb = b.subrange(off, le);
        if !is_blank(lb) {
            match line_parse(lb, 0) {
                Err(_) => {},
                Ok(((indent, None), _)) => {
                    lemma_scan_extends(b, next, ScanState { entries: st.entries, last_leaf: Some(indent) });
                },
                Ok(((indent, Some(m)), _)) => {
                    if !(st.last_leaf matches Some(l) && indent > l) {
                        let e2 = st.entries.push(
                            Entry { indent, info: info_of(m), span: line_span(b, off, lb) },
                        );
                        let st2 = ScanState { entries: e2, last_leaf: None };
                        lemma_scan_extends(b, next, st2);
                        let f = scan(b, next, st2).entries;
                        assert(f.take(st.entries.len() as int) =~= f.take(e2.len() as int).take(
                            st.entries.len() as int,
                        ));
                        assert(e2.take(st.entries.len() as int) =~= st.entries);
                    }
                },
            }
        } else {
            lemma_scan_extends(b, next, st);
        }
    }
}

/// No described line after the first is indented as little as the first:
/// the document has a single root.
pub open spec fn single_root(e: Seq<Entry>) -> bool {
    forall|j: int| 0 < j < e.len() ==> #[trigger] e[j].indent > e[0].indent
}

/// What `parse_raw` gives for a document read as `s`.
pub open spec fn raw_outcome(s: ScanEnd) -> core::result::Result<RawNodeV, ErrorV> {
    match s.error {
        Some(err) => Err(err),
        None => if s.entries.len() == 0 {
            Err(ErrorV::ParseError { span: Span { line: 1, column: 1 }, msg: no_root_msg() })
        } else {
            Ok(tree_of(s.entries, 0, s.entries.len() as int))
        },
    }
}

/// The bare line read since the last described line has the indent
/// `*last_leaf_indent`; a described line with indent `indent` that starts at
/// `line_start_offset` of `input` fails when it is indented deeper than that.
/// Otherwise the bare line is forgotten.
fn check_disconnected_node(
    last_leaf_indent: &mut Option<usize>,
    indent: usize,
    input: &str,
    line_start_offset: usize,
    line: &str,
) -> (r: core::result::Result<(), Error>)
    requires
        line_start_offset < usize::MAX,
        line_start_offset <= input.spec_bytes().len(),
        at_char(input.spec_bytes(), line_start_offset as int),
        line.spec_bytes().len() < usize::MAX,
    ensures
        match *old(last_leaf_indent) {
            Some(l) => if indent > l {
                &&& r matches Err(e) && e@ == ErrorV::ParseError {
                    span: line_span(input.spec_bytes(), line_start_offset as int, line.spec_bytes()),
                    msg: disconnected_msg(),
                }
                &&& *final(last_leaf_indent) == *old(last_leaf_indent)
            } else {
                r is Ok && *final(last_leaf_indent) is None
            },
            None => r is Ok && *final(last_leaf_indent) is None,
        },
{
    let is_deeper_than_leaf = match *last_leaf_indent {
        Some(leaf) => indent > leaf,
        None => false,
    };
    if is_deeper_than_leaf {
        let lb = line.as_bytes();
        let column = trim_start_exec(lb, 0, lb.len()) + 1;
        proof {
            encode_utf8_valid_utf8(input@);
            lemma_at_char_boundary(input.spec_bytes(), line_start_offset as int);
        }
        let line_no = Span::from_offset(input, line_start_offset).line;
        return Err(
            Error::ParseError {
                span: Span { line: line_no, column },
                msg: "Metadata block after leaf content".to_owned(),
            },
        );
    }
    *last_leaf_indent = None;
    Ok(())
}


/// A described line waiting for the lines nested under it.
struct StackedNode {
    indent: usize,
    node: RawNode,
}

/// Where the subtree of stack entry `k` stops counting entries.
spec fn lim_of(idx: Seq<int>, k: int, n: int) -> int {
    if k + 1 < idx.len() {
        idx[k + 1]
    } else {
        n
    }
}

/// The stack holds the entries `idx` of `e`, each entry the parent of the
/// next, each with the tree that its entries so far make under it.
spec fn stack_shape(s: Seq<StackedNode>, idx: Seq<int>, e: Seq<Entry>) -> bool {
    &&& s.len() == idx.len()
    &&& s.len() > 0 ==> idx[0] == 0
    &&& forall|k: int|
        #![trigger idx[k], idx[k + 1]]
        0 <= k < idx.len() - 1 ==> is_parent(e, idx[k], idx[k + 1])
    &&& forall|k: int|
        #![trigger s[k]]
        0 <= k < idx.len() ==> 0 <= idx[k] < e.len() && s[k].indent == e[idx[k]].indent
            && s[k].node@ == tree_of(e, idx[k], lim_of(idx, k, e.len() as int))
}

spec fn leaf_of(o: Option<usize>) -> Option<int> {
    match o {
        Some(x) => Some(x as int),
        None => None,
    }
}

/// Pops the top of the stack into the entry below it.
fn fold_top(stack: &mut Vec<StackedNode>, Ghost(idx): Ghost<Seq<int>>, Ghost(e): Ghost<Seq<Entry>>)
    requires
        old(stack)@.len() >= 2,
        stack_shape(old(stack)@, idx, e),
        forall|j: int| idx.last() < j < e.len() ==> #[trigger] e[j].indent > e[idx.last()].indent,
    ensures
        stack_shape(final(stack)@, idx.drop_last(), e),
        final(stack)@.len() == old(stack)@.len() - 1,
        forall|j: int|
            idx.drop_last().last() < j < e.len() ==> #[trigger] e[j].indent > e[idx.drop_last().last()].indent,
        forall|j: int|
            idx.drop_last().last() < j < e.len() ==> #[trigger] e[j].indent >= e[idx.last()].indent,
{
    let ghost n = idx.len();
    let ghost t = idx[n - 1];
    let ghost p = idx[n - 2];
    let ghost c = e.len() as int;
    assert(is_parent(e, idx[n - 2], idx[n - 2 + 1]));
    assert(stack@[n - 1].indent == e[idx[n - 1]].indent);
    assert(stack@[n - 2].indent == e[idx[n - 2]].indent);
    assert(stack@[n - 1].node@ == tree_of(e, t, c));
    assert(stack@[n - 2].node@ == tree_of(e, p, t));
    let child = stack.pop().unwrap();
    let mut parent = stack.pop().unwrap();
    let ghost old_children = parent.node@.children;
    let ghost old_vec = parent.node.children@;
    let ghost cv = child.node@;
    let ghost cn = child.node;
    parent.node.children.push(child.node);
    proof {
        lemma_pop(e, p, t, c);
        assert(parent.node.children@ == old_vec.push(cn));
        lemma_raw_view(parent.node);
        lemma_raw_view(old(stack)@[n - 2].node);
        assert forall|i: int| 0 <= i < old_vec.len() + 1 implies parent.node@.children[i]
            == old_children.push(cv)[i] by {
            if i < old_vec.len() {
                assert(parent.node.children@[i] == old_vec[i]);
            }
        }
        assert(parent.node@.children =~= old_children.push(cv));
        assert(parent.node@ == tree_of(e, p, c));
    }
    stack.push(parent);
    proof {
        let idx2 = idx.drop_last();
        assert forall|k: int|
            #![trigger idx2[k], idx2[k + 1]]
            0 <= k < idx2.len() - 1 implies is_parent(e, idx2[k], idx2[k + 1]) by {
            assert(is_parent(e, idx[k], idx[k + 1]));
        }
        assert forall|k: int|
            #![trigger stack@[k]]
            0 <= k < idx2.len() implies 0 <= idx2[k] < e.len() && stack@[k].indent == e[idx2[k]].indent
                && stack@[k].node@ == tree_of(e, idx2[k], lim_of(idx2, k, e.len() as int)) by {
            if k < idx2.len() - 1 {
                assert(old(stack)@[k] == stack@[k]);
                assert(old(stack)@[k].indent == e[idx[k]].indent);
                assert(lim_of(idx2, k, e.len() as int) == lim_of(idx, k, e.len() as int));
            } else {
                assert(lim_of(idx2, k, e.len() as int) == c);
            }
        }
        assert forall|j: int| p < j < c implies #[trigger] e[j].indent > e[p].indent
            && e[j].indent >= e[t].indent by {
            if j < t {
                assert(e[j].indent >= e[t].indent);
            } else if j > t {
                assert(e[j].indent > e[t].indent);
            }
        }
    }
}

/// Pushes the node of a new entry, the last of `e2`, onto a stack whose
/// top is its parent.
fn push_node(
    stack: &mut Vec<StackedNode>,
    sn: StackedNode,
    Ghost(idx): Ghost<Seq<int>>,
    Ghost(e): Ghost<Seq<Entry>>,
    Ghost(e2): Ghost<Seq<Entry>>,
)
    requires
        stack_shape(old(stack)@, idx, e),
        e2.len() == e.len() + 1,
        e2.take(e.len() as int) == e,
        sn.indent == e2[e.len() as int].indent,
        sn.node@ == tree_of(e2, e.len() as int, e.len() + 1 as int),
        old(stack)@.len() == 0 ==> e.len() == 0,
        old(stack)@.len() > 0 ==> {
            &&& e[idx.last()].indent < sn.indent
            &&& forall|j: int| idx.last() < j < e.len() ==> #[trigger] e[j].indent >= sn.indent
        },
    ensures
        stack_shape(final(stack)@, idx.push(e.len() as int), e2),
        final(stack)@.len() == old(stack)@.len() + 1,
{
    let ghost c = e.len() as int;
    let ghost idx2 = idx.push(c);
    stack.push(sn);
    proof {
        assert(extends(e, e2));
        assert(stack@[c - c + idx.len()] == sn);
        assert forall|k: int|
            #![trigger idx2[k], idx2[k + 1]]
            0 <= k < idx2.len() - 1 implies is_parent(e2, idx2[k], idx2[k + 1]) by {
            if k < idx.len() - 1 {
                assert(is_parent(e, idx[k], idx[k + 1]));
                lemma_is_parent_prefix(e, e2, idx[k], idx[k + 1]);
            } else {
                let t = idx[k];
                let s0 = old(stack)@[k];
                assert(0 <= t < c);
                assert(t == idx.last());
                assert(old(stack)@.len() > 0);
                assert(e2[c].indent == sn.indent);
                assert forall|m: int| t < m < c implies #[trigger] e2[m].indent >= e2[c].indent by {
                    assert(e[m] == e2.take(c)[m]);
                    assert(e[m].indent >= sn.indent);
                }
                assert(e[t] == e2.take(c)[t]);
            }
        }
        assert forall|k: int|
            #![trigger stack@[k]]
            0 <= k < idx2.len() implies 0 <= idx2[k] < e2.len() && stack@[k].indent
                == e2[idx2[k]].indent && stack@[k].node@ == tree_of(
                e2,
                idx2[k],
                lim_of(idx2, k, e2.len() as int),
            ) by {
            if k < idx.len() {
                assert(stack@[k] == old(stack)@[k]);
                assert(e[idx[k]] == e2.take(c)[idx[k]]);
                let lim = lim_of(idx, k, c);
                assert(lim_of(idx2, k, e2.len() as int) == lim);
                if k + 1 < idx.len() {
                    assert(is_parent(e, idx[k], idx[k + 1]));
                }
                lemma_tree_prefix(e, e2, idx[k], lim);
            }
        }
    }
}

/// Reads a document into the tree of its described lines: each described
/// line is a child of the nearest described line before it that is indented
/// less, the first described line is the root, and bare lines (lines without
/// a metadata block) add no node.
pub fn parse_raw(input: &str) -> (r: core::result::Result<RawNode, Error>)
    requires
        input.spec_bytes().len() < usize::MAX,
        single_root(scan_doc(input.spec_bytes()).entries),
    ensures
        match raw_outcome(scan_doc(input.spec_bytes())) {
            Ok(t) => r matches Ok(n) && n@ == t,
            Err(err) => r matches Err(e) && e@ == err,
        },
{
    let b = input.as_bytes();
    let ghost bs = b@;
    let ghost fin = scan_doc(bs).entries;
    proof {
        encode_utf8_valid_utf8(input@);
    }
    let mut shallow_to_deep_pending_nodes: Vec<StackedNode> = Vec::new();
    let mut offset: usize = 0;
    let mut last_leaf_indent: Option<usize> = None;
    let ghost mut entries: Seq<Entry> = seq![];
    let ghost mut idx: Seq<int> = seq![];
    proof {
        if bs.len() > 0 {
            vstd::utf8::is_char_boundary_iff_not_is_continuation_byte(bs, 0);
        }
        assert(fin.take(0) =~= entries);
    }
    while offset < b.len()
        invariant
            b@ == bs,
            bs == input.spec_bytes(),
            valid_utf8(bs),
            bs.len() < usize::MAX,
            fin == scan_doc(bs).entries,
            single_root(fin),
            offset <= bs.len(),
            at_char(bs, offset as int),
            scan(bs, offset as int, ScanState { entries, last_leaf: leaf_of(last_leaf_indent) })
                == scan_doc(bs),
            extends(entries, fin),
            stack_shape(shallow_to_deep_pending_nodes@, idx, entries),
            entries.len() == 0 <==> shallow_to_deep_pending_nodes@.len() == 0,
            shallow_to_deep_pending_nodes@.len() > 0 ==> idx.last() == entries.len() - 1,
        decreases bs.len() - offset,
    {
        let found_newline = find_byte_exec(b, offset, NEWLINE);
        proof {
            lemma_find_byte(bs, offset as int, NEWLINE);
        }
        let line = substr(input, offset, found_newline);
        let next = if found_newline < b.len() {
            found_newline + 1
        } else {
            found_newline
        };
        proof {
            if found_newline < bs.len() {
                crate::text::lemma_char_extent(bs, found_newline as int);
            }
        }
        let lb = line.as_bytes();
        let is_blank_line = trim_start_exec(lb, 0, lb.len()) == lb.len();
        if is_blank_line {
            offset = next;
            continue;
        }
        let line_start_offset = offset;
        let mut line_stream = Input::new(line);
        let parsed = parse_line(&mut line_stream);
        let parsed = match parsed {
            Ok(parsed) => parsed,
            Err(_) => {
                let pos = line_stream.current_token_start();
                let err_offset = line_start_offset + pos;
                proof {
                    if pos < lb@.len() {
                        assert(lb@[pos as int] == bs[err_offset as int]);
                    }
                    lemma_at_char_boundary(bs, err_offset as int);
                }
                return Err(
                    Error::ParseError {
                        span: Span::from_offset(input, err_offset),
                        msg: line_failure_text(),
                    },
                );
            },
        };
        let ParsedLine { indent, info } = parsed;
        let info = match info {
            None => {
                last_leaf_indent = Some(indent);
                offset = next;
                continue;
            },
            Some(info) => info,
        };
        match check_disconnected_node(
            &mut last_leaf_indent,
            indent,
            input,
            line_start_offset,
            line,
        ) {
            Ok(()) => {},
            Err(e) => {
                return Err(e);
            },
        }
        let ghost c = entries.len() as int;
        let ghost d = indent as int;
        let ghost lspan = line_span(bs, offset as int, lb@);
        let ghost ne = Entry { indent: d, info: info@, span: lspan };
        let ghost e2 = entries.push(ne);
        proof {
            let st2 = ScanState { entries: e2, last_leaf: None };
            assert(scan(bs, offset as int, ScanState { entries, last_leaf: leaf_of(last_leaf_indent) }) == scan(bs, next as int, st2));
            lemma_scan_extends(bs, next as int, st2);
            assert(fin.take(e2.len() as int)[c] == fin[c]);
            assert(fin[c] == ne);
            if c > 0 {
                assert(fin.take(e2.len() as int)[0] == fin[0]);
                assert(e2[0] == entries[0]);
                assert(fin[c].indent > fin[0].indent);
            }
        }
        loop
            invariant
                c == entries.len(),
                d == indent as int,
                stack_shape(shallow_to_deep_pending_nodes@, idx, entries),
                c == 0 <==> shallow_to_deep_pending_nodes@.len() == 0,
                c > 0 ==> entries[0].indent < d,
                shallow_to_deep_pending_nodes@.len() > 0 ==> forall|j: int|
                    idx.last() < j < c ==> #[trigger] entries[j].indent > entries[idx.last()].indent
                        && entries[j].indent >= d,
            ensures
                stack_shape(shallow_to_deep_pending_nodes@, idx, entries),
                c == 0 <==> shallow_to_deep_pending_nodes@.len() == 0,
                shallow_to_deep_pending_nodes@.len() > 0 ==> {
                    &&& entries[idx.last()].indent < d
                    &&& forall|j: int| idx.last() < j < c ==> #[trigger] entries[j].indent >= d
                },
            decreases shallow_to_deep_pending_nodes@.len(),
        {
            let n = shallow_to_deep_pending_nodes.len();
            if n == 0 {
                break;
            }
            let top_indent = shallow_to_deep_pending_nodes[n - 1].indent;
            proof {
                let top = (n - 1) as int;
                assert(shallow_to_deep_pending_nodes@[top].indent == entries[idx[top]].indent);
                assert(shallow_to_deep_pending_nodes@[0].indent == entries[idx[0]].indent);
            }
            if top_indent < indent {
                break;
            }
            proof {
                if n == 1 {
                    assert(false);
                }
            }
            fold_top(&mut shallow_to_deep_pending_nodes, Ghost(idx), Ghost(entries));
            proof {
                idx = idx.drop_last();
            }
        }
        let column = trim_start_exec(lb, 0, lb.len()) + 1;
        proof {
            lemma_at_char_boundary(bs, line_start_offset as int);
        }
        let line_no = Span::from_offset(input, line_start_offset).line;
        let span = Span { line: line_no, column };
        let node = RawNode { info, children: Vec::new(), span };
        proof {
            lemma_raw_view(node);
            assert(node@.children =~= tree_of(e2, c, c + 1).children);
            assert(e2.take(c) =~= entries);
        }
        push_node(
            &mut shallow_to_deep_pending_nodes,
            StackedNode { indent, node },
            Ghost(idx),
            Ghost(entries),
            Ghost(e2),
        );
        proof {
            idx = idx.push(c);
            entries = e2;
        }
        offset = next;
    }
    proof {
        assert(scan(bs, offset as int, ScanState { entries, last_leaf: leaf_of(last_leaf_indent) }).entries == entries);
        assert(entries == fin);
    }
    while shallow_to_deep_pending_nodes.len() > 1
        invariant
            fin == scan_doc(bs).entries,
            entries == fin,
            stack_shape(shallow_to_deep_pending_nodes@, idx, entries),
            entries.len() == 0 <==> shallow_to_deep_pending_nodes@.len() == 0,
            shallow_to_deep_pending_nodes@.len() > 0 ==> forall|j: int|
                idx.last() < j < entries.len() ==> #[trigger] entries[j].indent > entries[idx.last()].indent,
        decreases shallow_to_deep_pending_nodes@.len(),
    {
        fold_top(&mut shallow_to_deep_pending_nodes, Ghost(idx), Ghost(entries));
        proof {
            idx = idx.drop_last();
        }
    }
    match shallow_to_deep_pending_nodes.pop() {
        Some(stacked) => {
            proof {
                assert(idx.len() == 1);
                assert(lim_of(idx, 0, entries.len() as int) == entries.len());
            }
            Ok(stacked.node)
        },
        None => Err(
            Error::ParseError { span: Span { line: 1, column: 1 }, msg: "No root node found".to_owned() },
        ),
    }
}

/// Whether the described lines of `input`, read up to the first error,
/// have a single root: `parse_raw` and `parse` take exactly such documents.
pub fn has_single_root(input: &str) -> (r: bool)
    requires
        input.spec_bytes().len() < usize::MAX,
    ensures
        r == single_root(scan_doc(input.spec_bytes()).entries),
{
    let b = input.as_bytes();
    let ghost bs = b@;
    let ghost fin = scan_doc(bs).entries;
    proof {
        encode_utf8_valid_utf8(input@);
        if bs.len() > 0 {
            vstd::utf8::is_char_boundary_iff_not_is_continuation_byte(bs, 0);
        }
    }
    let mut offset: usize = 0;
    let mut last_leaf_indent: Option<usize> = None;
    let mut first: Option<usize> = None;
    let mut ok = true;
    let ghost mut entries: Seq<Entry> = seq![];
    while offset < b.len()
        invariant
            b@ == bs,
            bs == input.spec_bytes(),
            valid_utf8(bs),
            bs.len() < usize::MAX,
            fin == scan_doc(bs).entries,
            offset <= bs.len(),
            at_char(bs, offset as int),
            scan(bs, offset as int, ScanState { entries, last_leaf: leaf_of(last_leaf_indent) })
                == scan_doc(bs),
            entries.len() == 0 <==> first is None,
            first matches Some(f) ==> f == entries[0].indent,
            ok == single_root(entries),
        decreases bs.len() - offset,
    {
        let found_newline = find_byte_exec(b, offset, NEWLINE);
        proof {
            lemma_find_byte(bs, offset as int, NEWLINE);
            if found_newline < bs.len() {
                crate::text::lemma_char_extent(bs, found_newline as int);
            }
        }
        let line = substr(input, offset, found_newline);
        let next = if found_newline < b.len() {
            found_newline + 1
        } else {
            found_newline
        };
        let lb = line.as_bytes();
        if trim_start_exec(lb, 0, lb.len()) == lb.len() {
            offset = next;
            continue;
        }
        let mut line_stream = Input::new(line);
        let parsed = match parse_line(&mut line_stream) {
            Ok(parsed) => parsed,
            Err(_) => {
                return ok;
            },
        };
        let ParsedLine { indent, info } = parsed;
        let info = match info {
            None => {
                last_leaf_indent = Some(indent);
                offset = next;
                continue;
            },
            Some(info) => info,
        };
        let deeper = match last_leaf_indent {
            Some(l) => indent > l,
            None => false,
        };
        if deeper {
            return ok;
        }
        last_leaf_indent = None;
        let ghost ne = Entry { indent: indent as int, info: info@, span: line_span(bs, offset as int, lb@) };
        match first {
            None => {
                first = Some(indent);
            },
            Some(f) => {
                if indent <= f {
                    ok = false;
                }
            },
        }
        proof {
            let e2 = entries.push(ne);
            let grows = entries.len() == 0 || ne.indent > entries[0].indent;
            assert(e2[0] == if entries.len() == 0 { ne } else { entries[0] });
            if single_root(e2) {
                assert forall|j: int| 0 < j < entries.len() implies #[trigger] entries[j].indent
                    > entries[0].indent by {
                    assert(e2[j] == entries[j]);
                }
                if entries.len() > 0 {
                    assert(e2[entries.len() as int] == ne);
                }
                assert(single_root(entries) && grows);
            }
            if single_root(entries) && grows {
                assert forall|j: int| 0 < j < e2.len() implies #[trigger] e2[j].indent > e2[0].indent by {
                    if j < entries.len() {
                        assert(e2[j] == entries[j]);
                    }
                }
            }
            assert(ok == (single_root(entries) && grows));
            entries = e2;
        }
        offset = next;
    }
    proof {
        assert(scan(bs, offset as int, ScanState { entries, last_leaf: leaf_of(last_leaf_indent) }).entries == entries);
    }
    ok
}

/// A document as a typed tree.
#[derive(Debug, PartialEq)]
pub struct Node {
    pub span: Span,
    pub kind_special: NodeKindSpecial,
}

/// What a node of a document is.
#[derive(Debug, PartialEq)]
pub enum NodeKindSpecial {
    Leaf,
    Complex(NodeComplexKindSpecial),
}

/// A complex node and what is nested under it: the named fields of a
/// struct, or the fragments that describe an element of an array or a
/// value of a map.
#[derive(Debug, PartialEq)]
pub enum NodeComplexKindSpecial {
    Struct { children: StructFields },
    Array { child_fragments: Vec<Node> },
    Mapping { child_fragments: Vec<Node> },
}

/// The fields of a struct node, each name at most once.
#[derive(Debug, PartialEq)]
pub struct StructFields {
    entries: Vec<(String, Node)>,
}

/// The view of a `Node`.
pub struct NodeV {
    pub span: Span,
    pub kind: NodeKindV,
}

/// The view of what a node is.
pub enum NodeKindV {
    Leaf,
    Struct(Seq<(Seq<char>, NodeV)>),
    Array(Seq<NodeV>),
    Mapping(Seq<NodeV>),
}

/// The view of a `Node`.
pub open spec fn node_view(n: Node) -> NodeV
    decreases n, 0int,
{
    NodeV {
        span: n.span,
        kind: match n.kind_special {
            NodeKindSpecial::Leaf => NodeKindV::Leaf,
            NodeKindSpecial::Complex(c) => match c {
                NodeComplexKindSpecial::Struct { children } => NodeKindV::Struct(fields_view(children)),
                NodeComplexKindSpecial::Array { child_fragments } => NodeKindV::Array(
                    node_views(child_fragments@, child_fragments@.len() as int),
                ),
                NodeComplexKindSpecial::Mapping { child_fragments } => NodeKindV::Mapping(
                    node_views(child_fragments@, child_fragments@.len() as int),
                ),
            },
        },
    }
}

/// The views of the first `k` of `cs`.
pub open spec fn node_views(cs: Seq<Node>, k: int) -> Seq<NodeV>
    decreases cs, k,
{
    if k <= 0 || k > cs.len() {
        seq![]
    } else {
        node_views(cs, k - 1).push(node_view(cs[k - 1]))
    }
}

/// The view of the fields of a struct node: each name with the view of its
/// node, in order.
pub closed spec fn fields_view(s: StructFields) -> Seq<(Seq<char>, NodeV)>
    decreases s, 0int,
{
    field_views(s.entries@, s.entries@.len() as int)
}

/// The views of the first `k` of the fields `fs`.
pub closed spec fn field_views(fs: Seq<(String, Node)>, k: int) -> Seq<(Seq<char>, NodeV)>
    decreases fs, k,
{
    if k <= 0 || k > fs.len() {
        seq![]
    } else {
        field_views(fs, k - 1).push((fs[k - 1].0@, node_view(fs[k - 1].1)))
    }
}

pub proof fn lemma_node_views(cs: Seq<Node>, k: int)
    requires
        0 <= k <= cs.len(),
    ensures
        node_views(cs, k).len() == k,
        forall|i: int| 0 <= i < k ==> #[trigger] node_views(cs, k)[i] == node_view(cs[i]),
    decreases k,
{
    if k > 0 {
        lemma_node_views(cs, k - 1);
    }
}

pub proof fn lemma_field_views(fs: Seq<(String, Node)>, k: int)
    requires
        0 <= k <= fs.len(),
    ensures
        field_views(fs, k).len() == k,
        forall|i: int|
            0 <= i < k ==> #[trigger] field_views(fs, k)[i] == (fs[i].0@, node_view(fs[i].1)),
    decreases k,
{
    if k > 0 {
        lemma_field_views(fs, k - 1);
    }
}

impl View for StructFields {
    type V = Seq<(Seq<char>, NodeV)>;

    open spec fn view(&self) -> Seq<(Seq<char>, NodeV)> {
        fields_view(*self)
    }
}

/// Where the field named `k` is in `fs`, looking from index `j`.
pub open spec fn field_index(fs: Seq<(Seq<char>, NodeV)>, k: Seq<char>, j: int) -> Option<int>
    decreases fs.len() - j,
{
    if 0 <= j < fs.len() {
        if fs[j].0 == k {
            Some(j)
        } else {
            field_index(fs, k, j + 1)
        }
    } else {
        None
    }
}

/// `fs` with the field `k` set to `v`: in place when `k` is there, else
/// added at the end.
pub open spec fn fields_insert(fs: Seq<(Seq<char>, NodeV)>, k: Seq<char>, v: NodeV) -> Seq<(Seq<char>, NodeV)> {
    match field_index(fs, k, 0) {
        Some(j) => fs.update(j, (k, v)),
        None => fs.push((k, v)),
    }
}

pub proof fn lemma_field_index(fs: Seq<(Seq<char>, NodeV)>, k: Seq<char>, j: int)
    requires
        0 <= j,
    ensures
        field_index(fs, k, j) matches Some(i) ==> j <= i < fs.len() && fs[i].0 == k,
        field_index(fs, k, j) is None ==> forall|i: int| j <= i < fs.len() ==> fs[i].0 != k,
    decreases fs.len() - j,
{
    if 0 <= j < fs.len() && fs[j].0 != k {
        lemma_field_index(fs, k, j + 1);
    }
}

/// The message of a leaf that has described lines under it.
pub open spec fn leaf_children_msg() -> Seq<char> {
    "Leaf node should not have children"@
}

/// The message of a field of a struct without a name.
pub open spec fn unnamed_field_msg() -> Seq<char> {
    "struct field must be named"@
}

/// Turning the tree of described lines into a typed tree. A leaf must have
/// no children; a struct turns its children into named fields; an array or a
/// map turns its children into fragments. The first error in document order
/// wins.
pub open spec fn convert(r: RawNodeV) -> core::result::Result<NodeV, ErrorV>
    decreases r, 0int,
{
    match r.info.kind {
        Kind::Leaf => if r.children.len() > 0 {
            Err(ErrorV::ValidateError { span: r.span, msg: leaf_children_msg() })
        } else {
            Ok(NodeV { span: r.span, kind: NodeKindV::Leaf })
        },
        Kind::Complex(ComplexKind::Struct) => match convert_fields(r.children, 0, seq![]) {
            Ok(fs) => Ok(NodeV { span: r.span, kind: NodeKindV::Struct(fs) }),
            Err(e) => Err(e),
        },
        Kind::Complex(ComplexKind::Array) => match convert_all(r.children, 0, seq![]) {
            Ok(ns) => Ok(NodeV { span: r.span, kind: NodeKindV::Array(ns) }),
            Err(e) => Err(e),
        },
        Kind::Complex(ComplexKind::Mapping) => match convert_all(r.children, 0, seq![]) {
            Ok(ns) => Ok(NodeV { span: r.span, kind: NodeKindV::Mapping(ns) }),
            Err(e) => Err(e),
        },
    }
}

/// Converting `cs` from index `i` on, after `acc`.
pub open spec fn convert_all(cs: Seq<RawNodeV>, i: int, acc: Seq<NodeV>) -> core::result::Result<Seq<NodeV>, ErrorV>
    decreases cs, cs.len() - i,
{
    if 0 <= i < cs.len() {
        match convert(cs[i]) {
            Ok(n) => convert_all(cs, i + 1, acc.push(n)),
            Err(e) => Err(e),
        }
    } else {
        Ok(acc)
    }
}

/// Converting the fields `cs` from index `i` on, into the fields `acc`:
/// each must be named.
pub open spec fn convert_fields(cs: Seq<RawNodeV>, i: int, acc: Seq<(Seq<char>, NodeV)>) -> core::result::Result<Seq<(Seq<char>, NodeV)>, ErrorV>
    decreases cs, cs.len() - i,
{
    if 0 <= i < cs.len() {
        match cs[i].info.name {
            None => Err(ErrorV::ValidateError { span: cs[i].span, msg: unnamed_field_msg() }),
            Some(name) => match convert(cs[i]) {
                Ok(n) => convert_fields(cs, i + 1, fields_insert(acc, name, n)),
                Err(e) => Err(e),
            },
        }
    } else {
        Ok(acc)
    }
}

impl StructFields {
    /// Each name names one field at most.
    #[verifier::type_invariant]
    spec fn names_unique(&self) -> bool {
        distinct_names(self.entries@)
    }

    /// No fields.
    pub fn new() -> (r: Self)
        ensures
            r@ == Seq::<(Seq<char>, NodeV)>::empty(),
    {
        let r = StructFields { entries: Vec::new() };
        proof {
            lemma_field_views(r.entries@, 0);
            assert(r@ =~= Seq::<(Seq<char>, NodeV)>::empty());
        }
        r
    }

    /// The number of fields, each of them named differently.
    pub fn len(&self) -> (r: usize)
        ensures
            r == self@.len(),
            names_distinct(self@),
    {
        proof {
            use_type_invariant(self);
            lemma_field_views(self.entries@, self.entries@.len() as int);
        }
        self.entries.len()
    }

    /// The name and node of field `i`.
    pub fn entry(&self, i: usize) -> (r: (&String, &Node))
        requires
            i < self@.len(),
        ensures
            r.0@ == self@[i as int].0,
            node_view(*r.1) == self@[i as int].1,
    {
        proof {
            lemma_field_views(self.entries@, self.entries@.len() as int);
        }
        let e = &self.entries[i];
        (&e.0, &e.1)
    }

    /// The node of the field named `name`.
    pub fn get(&self, name: &str) -> (r: Option<&Node>)
        ensures
            match field_index(self@, name@, 0) {
                Some(i) => r matches Some(n) && node_view(*n) == self@[i].1,
                None => r is None,
            },
    {
        proof {
            lemma_field_views(self.entries@, self.entries@.len() as int);
        }
        let mut i: usize = 0;
        while i < self.entries.len()
            invariant
                i <= self.entries@.len(),
                self@.len() == self.entries@.len(),
                forall|j: int|
                    0 <= j < self.entries@.len() ==> #[trigger] self@[j] == (
                        self.entries@[j].0@,
                        node_view(self.entries@[j].1),
                    ),
                field_index(self@, name@, 0) == field_index(self@, name@, i as int),
            decreases self.entries@.len() - i,
        {
            let e = &self.entries[i];
            if bytes_eq(e.0.as_str().as_bytes(), name.as_bytes()) {
                proof {
                    lemma_encode_injective(e.0@, name@);
                }
                return Some(&e.1);
            }
            proof {
                if e.0@ == name@ {
                    assert(vstd::utf8::encode_utf8(e.0@) == name.spec_bytes());
                }
            }
            i = i + 1;
        }
        None
    }

    /// Sets the field `name` to `node`.
    fn insert(&mut self, name: String, node: Node)
        ensures
            final(self)@ == fields_insert(old(self)@, name@, node_view(node)),
    {
        proof {
            use_type_invariant(&*self);
            lemma_field_views(self.entries@, self.entries@.len() as int);
        }
        let ghost fs = self@;
        let mut entries: Vec<(String, Node)> = Vec::new();
        std::mem::swap(&mut entries, &mut self.entries);
        let mut i: usize = 0;
        while i < entries.len()
            invariant
                i <= entries@.len(),
                fs == old(self)@,
                fs.len() == entries@.len(),
                forall|j: int|
                    0 <= j < entries@.len() ==> #[trigger] fs[j] == (
                        entries@[j].0@,
                        node_view(entries@[j].1),
                    ),
                distinct_names(entries@),
                field_index(fs, name@, 0) == field_index(fs, name@, i as int),
            decreases entries@.len() - i,
        {
            if entries[i].0 == name {
                proof {
                    assert(fs[i as int].0 == name@);
                    assert(field_index(fs, name@, i as int) == Some(i as int));
                }
                let ghost nv = node_view(node);
                let ghost nm = name@;
                let ghost before = entries@;
                entries.set(i, (name, node));
                proof {
                    lemma_field_views(entries@, entries@.len() as int);
                    assert(field_views(entries@, entries@.len() as int) =~= fs.update(i as int, (nm, nv)));
                    assert forall|a: int, b: int| 0 <= a < b < entries@.len() implies #[trigger] entries@[a].0@
                        != #[trigger] entries@[b].0@ by {
                        assert(before[a].0@ != before[b].0@);
                    }
                }
                self.entries = entries;
                return;
            }
            i = i + 1;
        }
        let ghost nv = node_view(node);
        let ghost nm = name@;
        let ghost before = entries@;
        proof {
            lemma_field_index(fs, name@, 0);
        }
        entries.push((name, node));
        proof {
            lemma_field_views(entries@, entries@.len() as int);
            assert(field_views(entries@, entries@.len() as int) =~= fs.push((nm, nv)));
            assert forall|a: int, b: int| 0 <= a < b < entries@.len() implies #[trigger] entries@[a].0@
                != #[trigger] entries@[b].0@ by {
                if b < before.len() {
                    assert(before[a].0@ != before[b].0@);
                } else {
                    assert(fs[a].0 != nm);
                }
            }
        }
        self.entries = entries;
    }
}

/// No name occurs twice among the fields `es`.
pub open spec fn distinct_names(es: Seq<(String, Node)>) -> bool {
    forall|i: int, j: int| 0 <= i < j < es.len() ==> #[trigger] es[i].0@ != #[trigger] es[j].0@
}

/// The view of what a node is.
pub open spec fn kind_view(k: NodeKindSpecial) -> NodeKindV {
    node_view(Node { span: Span { line: 0, column: 0 }, kind_special: k }).kind
}

/// The view of what a complex node is.
pub open spec fn complex_view(c: NodeComplexKindSpecial) -> NodeKindV {
    kind_view(NodeKindSpecial::Complex(c))
}

/// A copy of `n` and of everything under it.
fn clone_node(n: &Node) -> (r: Node)
    ensures
        node_view(r) == node_view(*n),
    decreases node_view(*n), 3int,
{
    let kind_special = clone_kind(&n.kind_special, Ghost(*n));
    Node { span: n.span, kind_special }
}

/// A copy of `k`, the kind of the node `n`.
fn clone_kind(k: &NodeKindSpecial, Ghost(n): Ghost<Node>) -> (r: NodeKindSpecial)
    requires
        n.kind_special == *k,
    ensures
        kind_view(r) == kind_view(*k),
    decreases node_view(n), 2int,
{
    match k {
        NodeKindSpecial::Leaf => NodeKindSpecial::Leaf,
        NodeKindSpecial::Complex(c) => NodeKindSpecial::Complex(clone_complex(c, Ghost(n))),
    }
}

/// A copy of `c`, the kind of the complex node `n`.
fn clone_complex(c: &NodeComplexKindSpecial, Ghost(n): Ghost<Node>) -> (r: NodeComplexKindSpecial)
    requires
        n.kind_special == NodeKindSpecial::Complex(*c),
    ensures
        complex_view(r) == complex_view(*c),
    decreases node_view(n), 1int,
{
    match c {
        NodeComplexKindSpecial::Struct { children } => NodeComplexKindSpecial::Struct {
            children: clone_fields(children, Ghost(n)),
        },
        NodeComplexKindSpecial::Array { child_fragments } => NodeComplexKindSpecial::Array {
            child_fragments: clone_fragments(child_fragments, Ghost(n)),
        },
        NodeComplexKindSpecial::Mapping { child_fragments } => NodeComplexKindSpecial::Mapping {
            child_fragments: clone_fragments(child_fragments, Ghost(n)),
        },
    }
}

/// A copy of the fragments `frags` of the node `n`.
fn clone_fragments(frags: &Vec<Node>, Ghost(n): Ghost<Node>) -> (r: Vec<Node>)
    requires
        node_view(n).kind == NodeKindV::Array(node_views(frags@, frags@.len() as int))
            || node_view(n).kind == NodeKindV::Mapping(node_views(frags@, frags@.len() as int)),
    ensures
        node_views(r@, r@.len() as int) == node_views(frags@, frags@.len() as int),
    decreases node_view(n), 0int,
{
    let ghost vs = node_views(frags@, frags@.len() as int);
    proof {
        lemma_node_views(frags@, frags@.len() as int);
    }
    let mut out: Vec<Node> = Vec::new();
    let mut i: usize = 0;
    while i < frags.len()
        invariant
            vs == node_views(frags@, frags@.len() as int),
            node_view(n).kind == NodeKindV::Array(vs) || node_view(n).kind == NodeKindV::Mapping(vs),
            vs.len() == frags@.len(),
            forall|j: int| 0 <= j < frags@.len() ==> #[trigger] vs[j] == node_view(frags@[j]),
            i <= frags@.len(),
            out@.len() == i,
            forall|j: int| 0 <= j < i ==> #[trigger] node_view(out@[j]) == vs[j],
        decreases frags@.len() - i,
    {
        proof {
            assert(vs[i as int] == node_view(frags@[i as int]));
            let nv = node_view(n);
            let k = nv.kind;
            assert(decreases_to!(nv => k));
            if k == NodeKindV::Array(vs) {
                assert(decreases_to!(k => k->Array_0));
            } else {
                assert(decreases_to!(k => k->Mapping_0));
            }
            assert(decreases_to!(vs => vs[i as int]));
        }
        let c = clone_node(&frags[i]);
        out.push(c);
        i = i + 1;
    }
    proof {
        lemma_node_views(out@, out@.len() as int);
        assert(node_views(out@, out@.len() as int) =~= vs);
    }
    out
}

/// A copy of the fields `fields` of the node `n`.
fn clone_fields(fields: &StructFields, Ghost(n): Ghost<Node>) -> (r: StructFields)
    requires
        node_view(n).kind == NodeKindV::Struct(fields@),
    ensures
        r@ == fields@,
    decreases node_view(n), 0int,
{
    proof {
        use_type_invariant(fields);
        lemma_field_views(fields.entries@, fields.entries@.len() as int);
    }
    let ghost vs = fields@;
    let mut out: Vec<(String, Node)> = Vec::new();
    let mut i: usize = 0;
    while i < fields.entries.len()
        invariant
            vs == fields@,
            node_view(n).kind == NodeKindV::Struct(vs),
            vs.len() == fields.entries@.len(),
            forall|j: int|
                0 <= j < fields.entries@.len() ==> #[trigger] vs[j] == (
                    fields.entries@[j].0@,
                    node_view(fields.entries@[j].1),
                ),
            distinct_names(fields.entries@),
            i <= fields.entries@.len(),
            out@.len() == i,
            forall|j: int| 0 <= j < i ==> #[trigger] out@[j].0@ == vs[j].0 && node_view(out@[j].1) == vs[j].1,
        decreases fields.entries@.len() - i,
    {
        let e = &fields.entries[i];
        proof {
            let nv = node_view(n);
            let k = nv.kind;
            assert(decreases_to!(nv => k));
            assert(decreases_to!(k => k->Struct_0));
            assert(decreases_to!(vs => vs[i as int]));
            assert(decreases_to!(vs[i as int] => vs[i as int].1));
        }
        let c = clone_node(&e.1);
        out.push((e.0.clone(), c));
        i = i + 1;
    }
    proof {
        lemma_field_views(out@, out@.len() as int);
        assert(field_views(out@, out@.len() as int) =~= vs);
        assert forall|a: int, b: int| 0 <= a < b < out@.len() implies #[trigger] out@[a].0@
            != #[trigger] out@[b].0@ by {
            assert(fields.entries@[a].0@ != fields.entries@[b].0@);
        }
    }
    StructFields { entries: out }
}

impl Clone for Node {
    fn clone(&self) -> (r: Self)
        ensures
            node_view(r) == node_view(*self),
    {
        clone_node(self)
    }
}

impl Clone for NodeKindSpecial {
    fn clone(&self) -> (r: Self)
        ensures
            kind_view(r) == kind_view(*self),
    {
        clone_kind(self, Ghost(Node { span: Span { line: 0, column: 0 }, kind_special: *self }))
    }
}

impl Clone for NodeComplexKindSpecial {
    fn clone(&self) -> (r: Self)
        ensures
            complex_view(r) == complex_view(*self),
    {
        clone_complex(
            self,
            Ghost(Node { span: Span { line: 0, column: 0 }, kind_special: NodeKindSpecial::Complex(*self) }),
        )
    }
}

impl Clone for StructFields {
    fn clone(&self) -> (r: Self)
        ensures
            r@ == self@,
    {
        let ghost n = Node {
            span: Span { line: 0, column: 0 },
            kind_special: NodeKindSpecial::Complex(NodeComplexKindSpecial::Struct { children: *self }),
        };
        clone_fields(self, Ghost(n))
    }
}

/// Converts the children `cs` of an array or a map into fragments.
fn convert_children(cs: &Vec<RawNode>) -> (r: core::result::Result<Vec<Node>, Error>)
    ensures
        match convert_all(raw_views(cs@, cs@.len()), 0, seq![]) {
            Ok(ns) => r matches Ok(v) && node_views(v@, v@.len() as int) == ns,
            Err(e) => r matches Err(x) && x@ == e,
        },
    decreases raw_views(cs@, cs@.len()), 0int,
{
    let ghost rs = raw_views(cs@, cs@.len());
    proof {
        lemma_raw_views(cs@, cs@.len());
    }
    let mut out: Vec<Node> = Vec::new();
    let ghost mut acc: Seq<NodeV> = seq![];
    let mut i: usize = 0;
    while i < cs.len()
        invariant
            rs == raw_views(cs@, cs@.len()),
            rs.len() == cs@.len(),
            forall|j: int| 0 <= j < cs@.len() ==> #[trigger] rs[j] == raw_view(cs@[j]),
            i <= cs@.len(),
            out@.len() == i,
            acc.len() == i,
            forall|j: int| 0 <= j < i ==> node_view(#[trigger] out@[j]) == acc[j],
            convert_all(rs, 0, seq![]) == convert_all(rs, i as int, acc),
        decreases cs@.len() - i,
    {
        proof {
            assert(rs[i as int] == cs@[i as int]@);
        }
        match convert_raw(&cs[i]) {
            Ok(node) => {
                proof {
                    acc = acc.push(node_view(node));
                }
                out.push(node);
            },
            Err(e) => {
                return Err(e);
            },
        }
        i = i + 1;
    }
    proof {
        lemma_node_views(out@, out@.len() as int);
        assert(node_views(out@, out@.len() as int) =~= acc);
    }
    Ok(out)
}

/// Converts the children `fields` of a struct into its named fields.
fn collect_struct_fields(fields: &Vec<RawNode>) -> (r: core::result::Result<StructFields, Error>)
    ensures
        match convert_fields(raw_views(fields@, fields@.len()), 0, seq![]) {
            Ok(fs) => r matches Ok(v) && v@ == fs,
            Err(e) => r matches Err(x) && x@ == e,
        },
    decreases raw_views(fields@, fields@.len()), 0int,
{
    let ghost rs = raw_views(fields@, fields@.len());
    proof {
        lemma_raw_views(fields@, fields@.len());
    }
    let mut out = StructFields::new();
    let mut i: usize = 0;
    while i < fields.len()
        invariant
            rs == raw_views(fields@, fields@.len()),
            rs.len() == fields@.len(),
            forall|j: int| 0 <= j < fields@.len() ==> #[trigger] rs[j] == raw_view(fields@[j]),
            i <= fields@.len(),
            convert_fields(rs, 0, seq![]) == convert_fields(rs, i as int, out@),
        decreases fields@.len() - i,
    {
        let field = &fields[i];
        proof {
            assert(rs[i as int] == field@);
            lemma_raw_view(*field);
        }
        match &field.info.name {
            NodeName::Anonymous => {
                return Err(
                    Error::ValidateError {
                        span: field.span,
                        msg: "struct field must be named".to_owned(),
                    },
                );
            },
            NodeName::AsField(name) => {
                let node = match convert_raw(field) {
                    Ok(node) => node,
                    Err(e) => {
                        return Err(e);
                    },
                };
                out.insert(name.clone(), node);
            },
        }
        i = i + 1;
    }
    Ok(out)
}

/// Converts a tree of described lines into a typed tree: see `convert`.
fn convert_raw(raw: &RawNode) -> (r: core::result::Result<Node, Error>)
    ensures
        match convert(raw@) {
            Ok(nv) => r matches Ok(n) && node_view(n) == nv,
            Err(e) => r matches Err(x) && x@ == e,
        },
    decreases raw@, 1int,
{
    proof {
        lemma_raw_view(*raw);
        assert(raw@.children == raw_views(raw.children@, raw.children@.len()));
    }
    match raw.info.kind {
        Kind::Leaf => {
            if raw.children.len() > 0 {
                return Err(
                    Error::ValidateError {
                        span: raw.span,
                        msg: "Leaf node should not have children".to_owned(),
                    },
                );
            }
            let n = Node { span: raw.span, kind_special: NodeKindSpecial::Leaf };
            Ok(n)
        },
        Kind::Complex(ComplexKind::Struct) => {
            let fields = match collect_struct_fields(&raw.children) {
                Ok(f) => f,
                Err(e) => {
                    return Err(e);
                },
            };
            let n = Node {
                span: raw.span,
                kind_special: NodeKindSpecial::Complex(
                    NodeComplexKindSpecial::Struct { children: fields },
                ),
            };
            Ok(n)
        },
        Kind::Complex(ComplexKind::Array) => {
            let child_fragments = match convert_children(&raw.children) {
                Ok(f) => f,
                Err(e) => {
                    return Err(e);
                },
            };
            Ok(
                Node {
                    span: raw.span,
                    kind_special: NodeKindSpecial::Complex(
                        NodeComplexKindSpecial::Array { child_fragments },
                    ),
                },
            )
        },
        Kind::Complex(ComplexKind::Mapping) => {
            let child_fragments = match convert_children(&raw.children) {
                Ok(f) => f,
                Err(e) => {
                    return Err(e);
                },
            };
            Ok(
                Node {
                    span: raw.span,
                    kind_special: NodeKindSpecial::Complex(
                        NodeComplexKindSpecial::Mapping { child_fragments },
                    ),
                },
            )
        },
    }
}

/// Reads a document into a typed tree: `parse_raw`, then `convert`.
pub fn parse(input: &str) -> (r: core::result::Result<Node, Error>)
    requires
        input.spec_bytes().len() < usize::MAX,
        single_root(scan_doc(input.spec_bytes()).entries),
    ensures
        match raw_outcome(scan_doc(input.spec_bytes())) {
            Ok(t) => match convert(t) {
                Ok(nv) => r matches Ok(n) && node_view(n) == nv,
                Err(e) => r matches Err(x) && x@ == e,
            },
            Err(e) => r matches Err(x) && x@ == e,
        },
{
    let raw = parse_raw(input)?;
    convert_raw(&raw)
}

/// Index of the last field of `fields` named `name`, looking below `j`.
pub open spec fn last_field(fields: Seq<ShapeField>, name: Seq<char>, j: int) -> Option<int>
    decreases j,
{
    if 0 < j <= fields.len() {
        if fields[j - 1].name@ == name {
            Some(j - 1)
        } else {
            last_field(fields, name, j - 1)
        }
    } else {
        None
    }
}

/// The message of a node that is not described as a struct where the type
/// is a struct.
pub open spec fn struct_node_msg() -> Seq<char> {
    "Expected struct node"@
}

/// Checking a node against the type `s` of table `t`: a leaf fits any type;
/// a struct node is checked as `validate_struct`; the fragments of an array
/// must each fit the item type of a list type, and the fragments of a map
/// the value type of a map type. The first error in document order wins.
pub open spec fn validate_node(n: NodeV, t: ShapeTable, s: int) -> core::result::Result<(), ErrorV>
    decreases n, 1int,
{
    match n.kind {
        NodeKindV::Leaf => Ok(()),
        NodeKindV::Struct(_) => validate_struct(n, t, s),
        NodeKindV::Array(frags) => match t.entries@[s].def {
            ShapeDef::List { item } => validate_all(frags, t, item as int, 0),
            _ => Err(
                ErrorV::ValidateError {
                    span: n.span,
                    msg: "Expected array-like type, got "@ + t.entries@[s].def_text@,
                },
            ),
        },
        NodeKindV::Mapping(frags) => match t.entries@[s].def {
            ShapeDef::Mapping { value } => validate_all(frags, t, value as int, 0),
            _ => Err(
                ErrorV::ValidateError {
                    span: n.span,
                    msg: "Expected map-like type, got "@ + t.entries@[s].def_text@,
                },
            ),
        },
    }
}

/// Checking a node against a type that must be a struct: the node must be a
/// struct node too, and each of its fields, in order, must be a field of
/// the type (the last one of that name) and fit that field's type.
pub open spec fn validate_struct(n: NodeV, t: ShapeTable, s: int) -> core::result::Result<(), ErrorV>
    decreases n, 0int,
{
    match t.entries@[s].ty {
        ShapeType::Struct { fields } => match n.kind {
            NodeKindV::Struct(children) => validate_fields(children, fields@, t, n.span, 0),
            _ => Err(ErrorV::ValidateError { span: n.span, msg: struct_node_msg() }),
        },
        ShapeType::Other => Err(
            ErrorV::ValidateError {
                span: n.span,
                msg: "Expected struct, got "@ + t.entries@[s].ty_text@,
            },
        ),
    }
}

/// Checking the fragments `frags` from index `i` on against the type `s`.
pub open spec fn validate_all(frags: Seq<NodeV>, t: ShapeTable, s: int, i: int) -> core::result::Result<(), ErrorV>
    decreases frags, frags.len() - i,
{
    if 0 <= i < frags.len() {
        match validate_node(frags[i], t, s) {
            Ok(()) => validate_all(frags, t, s, i + 1),
            Err(e) => Err(e),
        }
    } else {
        Ok(())
    }
}

/// Checking the fields `children` of a struct node at `span` from index `i`
/// on against the fields of a struct type.
pub open spec fn validate_fields(
    children: Seq<(Seq<char>, NodeV)>,
    fields: Seq<ShapeField>,
    t: ShapeTable,
    span: Span,
    i: int,
) -> core::result::Result<(), ErrorV>
    decreases children, children.len() - i,
{
    if 0 <= i < children.len() {
        match last_field(fields, children[i].0, fields.len() as int) {
            None => Err(
                ErrorV::ValidateError {
                    span,
                    msg: "Field '"@ + children[i].0 + "' not found in struct"@,
                },
            ),
            Some(f) => match validate_node(children[i].1, t, fields[f].shape as int) {
                Ok(()) => validate_fields(children, fields, t, span, i + 1),
                Err(e) => Err(e),
            },
        }
    } else {
        Ok(())
    }
}

/// The last field of `fields` named `name`.
fn find_field(fields: &Vec<ShapeField>, name: &String) -> (r: Option<usize>)
    ensures
        r matches Some(x) ==> x < fields@.len() && last_field(fields@, name@, fields@.len() as int)
            == Some(x as int),
        r is None ==> last_field(fields@, name@, fields@.len() as int) is None,
{
    let mut j = fields.len();
    while j > 0
        invariant
            j <= fields@.len(),
            last_field(fields@, name@, fields@.len() as int) == last_field(fields@, name@, j as int),
        decreases j,
    {
        if fields[j - 1].name == *name {
            return Some(j - 1);
        }
        j = j - 1;
    }
    None
}

/// `prefix` followed by `rest`.
fn message(prefix: &str, rest: &str) -> (r: String)
    ensures
        r@ == prefix@ + rest@,
{
    let mut m = prefix.to_owned();
    m.append(rest);
    m
}

/// Checks `node` against the type `s` of `shapes`: see `validate_node`.
fn validate_node_exec(node: &Node, shapes: &ShapeTable, s: usize) -> (r: core::result::Result<(), Error>)
    requires
        shapes.wf(),
        s < shapes.entries@.len(),
    ensures
        match validate_node(node_view(*node), *shapes, s as int) {
            Ok(()) => r is Ok,
            Err(e) => r matches Err(x) && x@ == e,
        },
    decreases node_view(*node), 1int,
{
    let entry = &shapes.entries[s];
    proof {
        assert(entry_wf_at(shapes, s as int));
    }
    match &node.kind_special {
        NodeKindSpecial::Leaf => Ok(()),
        NodeKindSpecial::Complex(NodeComplexKindSpecial::Struct { .. }) => validate_struct_fields(
            node,
            shapes,
            s,
        ),
        NodeKindSpecial::Complex(NodeComplexKindSpecial::Array { child_fragments }) => {
            let item = match entry.def {
                ShapeDef::List { item } => item,
                _ => {
                    return Err(
                        Error::ValidateError {
                            span: node.span,
                            msg: message("Expected array-like type, got ", entry.def_text.as_str()),
                        },
                    );
                },
            };
            validate_fragments(node, child_fragments, shapes, item)
        },
        NodeKindSpecial::Complex(NodeComplexKindSpecial::Mapping { child_fragments }) => {
            let value = match entry.def {
                ShapeDef::Mapping { value } => value,
                _ => {
                    return Err(
                        Error::ValidateError {
                            span: node.span,
                            msg: message("Expected map-like type, got ", entry.def_text.as_str()),
                        },
                    );
                },
            };
            validate_fragments(node, child_fragments, shapes, value)
        },
    }
}

spec fn entry_wf_at(shapes: &ShapeTable, s: int) -> bool {
    crate::shape::entry_wf(shapes.entries@[s], shapes.entries@.len() as int)
}

/// Checks the fragments of `node` against the type `s`.
fn validate_fragments(node: &Node, frags: &Vec<Node>, shapes: &ShapeTable, s: usize) -> (r: core::result::Result<(), Error>)
    requires
        shapes.wf(),
        s < shapes.entries@.len(),
        node_view(*node).kind == NodeKindV::Array(node_views(frags@, frags@.len() as int))
            || node_view(*node).kind == NodeKindV::Mapping(node_views(frags@, frags@.len() as int)),
    ensures
        match validate_all(node_views(frags@, frags@.len() as int), *shapes, s as int, 0) {
            Ok(()) => r is Ok,
            Err(e) => r matches Err(x) && x@ == e,
        },
    decreases node_view(*node), 0int,
{
    let ghost vs = node_views(frags@, frags@.len() as int);
    proof {
        lemma_node_views(frags@, frags@.len() as int);
    }
    let mut i: usize = 0;
    while i < frags.len()
        invariant
            shapes.wf(),
            s < shapes.entries@.len(),
            vs == node_views(frags@, frags@.len() as int),
            node_view(*node).kind == NodeKindV::Array(vs) || node_view(*node).kind
                == NodeKindV::Mapping(vs),
            vs.len() == frags@.len(),
            forall|j: int| 0 <= j < frags@.len() ==> #[trigger] vs[j] == node_view(frags@[j]),
            i <= frags@.len(),
            validate_all(vs, *shapes, s as int, 0) == validate_all(vs, *shapes, s as int, i as int),
        decreases frags@.len() - i,
    {
        proof {
            assert(vs[i as int] == node_view(frags@[i as int]));
            let nv = node_view(*node);
            let k = nv.kind;
            assert(decreases_to!(nv => k));
            if k == NodeKindV::Array(vs) {
                assert(decreases_to!(k => k->Array_0));
            } else {
                assert(decreases_to!(k => k->Mapping_0));
            }
            assert(decreases_to!(vs => vs[i as int]));
        }
        match validate_node_exec(&frags[i], shapes, s) {
            Ok(()) => {},
            Err(e) => {
                return Err(e);
            },
        }
        i = i + 1;
    }
    Ok(())
}

/// Checks `node` against the type `s`, which must be a struct: see
/// `validate_struct`.
fn validate_struct_fields(node: &Node, shapes: &ShapeTable, s: usize) -> (r: core::result::Result<(), Error>)
    requires
        shapes.wf(),
        s < shapes.entries@.len(),
    ensures
        match validate_struct(node_view(*node), *shapes, s as int) {
            Ok(()) => r is Ok,
            Err(e) => r matches Err(x) && x@ == e,
        },
    decreases node_view(*node), 0int,
{
    let entry = &shapes.entries[s];
    proof {
        assert(entry_wf_at(shapes, s as int));
    }
    let fields = match &entry.ty {
        ShapeType::Struct { fields } => fields,
        ShapeType::Other => {
            return Err(
                Error::ValidateError {
                    span: node.span,
                    msg: message("Expected struct, got ", entry.ty_text.as_str()),
                },
            );
        },
    };
    let children = match &node.kind_special {
        NodeKindSpecial::Complex(NodeComplexKindSpecial::Struct { children }) => children,
        _ => {
            return Err(
                Error::ValidateError {
                    span: node.span,
                    msg: "Expected struct node".to_owned(),
                },
            );
        },
    };
    let ghost cv = children@;
    proof {
        lemma_field_views(children.entries@, children.entries@.len() as int);
    }
    let n = children.len();
    let mut i: usize = 0;
    while i < n
        invariant
            shapes.wf(),
            s < shapes.entries@.len(),
            n == cv.len(),
            cv == children@,
            cv == field_views(children.entries@, children.entries@.len() as int),
            node_view(*node).kind == NodeKindV::Struct(cv),
            shapes.entries@[s as int].ty == (ShapeType::Struct { fields: *fields }),
            crate::shape::entry_wf(shapes.entries@[s as int], shapes.entries@.len() as int),
            i <= n,
            validate_struct(node_view(*node), *shapes, s as int) == validate_fields(
                cv,
                fields@,
                *shapes,
                node.span,
                i as int,
            ),
        decreases n - i,
    {
        let (child_name, child) = children.entry(i);
        let f = match find_field(fields, child_name) {
            Some(f) => f,
            None => {
                let mut msg = message("Field '", child_name.as_str());
                msg.append("' not found in struct");
                return Err(Error::ValidateError { span: node.span, msg });
            },
        };
        proof {
            assert(fields@[f as int].shape < shapes.entries@.len());
            assert(child_name@ == cv[i as int].0);
            assert(node_view(*child) == cv[i as int].1);
            assert(last_field(fields@, cv[i as int].0, fields@.len() as int) == Some(f as int));
            assert(decreases_to!(node_view(*node) => node_view(*child)));
        }
        match validate_node_exec(child, shapes, fields[f].shape) {
            Ok(()) => {},
            Err(e) => {
                return Err(e);
            },
        }
        i = i + 1;
    }
    Ok(())
}

/// Checks the document `tree_doc` against the type `root` of `shapes`,
/// which must be a struct: see `validate_struct`.
pub fn validate(tree_doc: &Node, shapes: &ShapeTable, root: usize) -> (r: core::result::Result<(), Error>)
    requires
        shapes.wf(),
        root < shapes.entries@.len(),
    ensures
        match validate_struct(node_view(*tree_doc), *shapes, root as int) {
            Ok(()) => r is Ok,
            Err(e) => r matches Err(x) && x@ == e,
        },
{
    validate_struct_fields(tree_doc, shapes, root)
}

/// No name occurs twice among the fields `fs`.
pub open spec fn names_distinct(fs: Seq<(Seq<char>, NodeV)>) -> bool {
    forall|i: int, j: int| 0 <= i < j < fs.len() ==> #[trigger] fs[i].0 != #[trigger] fs[j].0
}

proof fn lemma_fields_insert_distinct(fs: Seq<(Seq<char>, NodeV)>, k: Seq<char>, v: NodeV)
    requires
        names_distinct(fs),
    ensures
        names_distinct(fields_insert(fs, k, v)),
        fields_insert(fs, k, v).len() == fs.len() || fields_insert(fs, k, v).len() == fs.len() + 1,
{
    lemma_field_index(fs, k, 0);
    let r = fields_insert(fs, k, v);
    match field_index(fs, k, 0) {
        Some(x) => {
            assert forall|i: int, j: int| 0 <= i < j < r.len() implies #[trigger] r[i].0 != #[trigger] r[j].0 by {
                assert(r[i].0 == fs[i].0);
                assert(r[j].0 == fs[j].0);
            }
        },
        None => {
            assert forall|i: int, j: int| 0 <= i < j < r.len() implies #[trigger] r[i].0 != #[trigger] r[j].0 by {
                if j == fs.len() {
                    assert(r[j].0 == k);
                    assert(r[i].0 == fs[i].0);
                } else {
                    assert(r[i].0 == fs[i].0);
                    assert(r[j].0 == fs[j].0);
                }
            }
        },
    }
}

proof fn lemma_convert_fields_distinct(cs: Seq<RawNodeV>, i: int, acc: Seq<(Seq<char>, NodeV)>)
    requires
        names_distinct(acc),
    ensures
        convert_fields(cs, i, acc) matches Ok(fs) ==> names_distinct(fs),
    decreases cs.len() - i,
{
    if 0 <= i < cs.len() {
        if let Some(name) = cs[i].info.name {
            if let Ok(n) = convert(cs[i]) {
                lemma_fields_insert_distinct(acc, name, n);
                lemma_convert_fields_distinct(cs, i + 1, fields_insert(acc, name, n));
            }
        }
    }
}

/// The fields of a struct node are named each at most once: a later line
/// with the name of an earlier one takes that field's place.
pub proof fn law_struct_field_names_distinct(r: RawNodeV)
    ensures
        convert(r) matches Ok(n) ==> (n.kind matches NodeKindV::Struct(fs) ==> names_distinct(fs)),
{
    if r.info.kind == Kind::Complex(ComplexKind::Struct) {
        lemma_convert_fields_distinct(r.children, 0, seq![]);
    }
}

proof fn lemma_validate_all_from(frags: Seq<NodeV>, t: ShapeTable, s: int, i: int)
    requires
        0 <= i <= frags.len(),
    ensures
        validate_all(frags, t, s, i) is Ok <==> forall|j: int|
            i <= j < frags.len() ==> #[trigger] validate_node(frags[j], t, s) is Ok,
    decreases frags.len() - i,
{
    if i < frags.len() {
        lemma_validate_all_from(frags, t, s, i + 1);
        let v = validate_node(frags[i], t, s);
        assert(validate_all(frags, t, s, i) == match v {
            Ok(()) => validate_all(frags, t, s, i + 1),
            Err(e) => Err(e),
        });
    }
}

/// Fragments pass against a type exactly when each of them does.
pub proof fn law_validate_fragments(frags: Seq<NodeV>, t: ShapeTable, s: int)
    ensures
        validate_all(frags, t, s, 0) is Ok <==> forall|j: int|
            0 <= j < frags.len() ==> #[trigger] validate_node(frags[j], t, s) is Ok,
{
    lemma_validate_all_from(frags, t, s, 0);
}

proof fn lemma_validate_fields_from(
    children: Seq<(Seq<char>, NodeV)>,
    fields: Seq<ShapeField>,
    t: ShapeTable,
    span: Span,
    i: int,
)
    requires
        0 <= i <= children.len(),
    ensures
        validate_fields(children, fields, t, span, i) is Ok <==> forall|j: int|
            i <= j < children.len() ==> (#[trigger] last_field(fields, children[j].0, fields.len() as int)
                matches Some(f) && validate_node(children[j].1, t, fields[f].shape as int) is Ok),
    decreases children.len() - i,
{
    if i < children.len() {
        lemma_validate_fields_from(children, fields, t, span, i + 1);
    }
}

/// The fields of a struct node pass against a struct type exactly when
/// each of them is a field of the type and passes against that field's type.
pub proof fn law_validate_fields(
    children: Seq<(Seq<char>, NodeV)>,
    fields: Seq<ShapeField>,
    t: ShapeTable,
    span: Span,
)
    ensures
        validate_fields(children, fields, t, span, 0) is Ok <==> forall|j: int|
            0 <= j < children.len() ==> (#[trigger] last_field(fields, children[j].0, fields.len() as int)
                matches Some(f) && validate_node(children[j].1, t, fields[f].shape as int) is Ok),
{
    lemma_validate_fields_from(children, fields, t, span, 0);
}

/// `a` is `b` with, at any depth, some fields or fragments left out and
/// some nodes replaced by leaves; what is kept keeps its order.
pub open spec fn narrows(a: NodeV, b: NodeV) -> bool
    decreases b, 1int,
{
    match a.kind {
        NodeKindV::Leaf => true,
        NodeKindV::Struct(fa) => match b.kind {
            NodeKindV::Struct(fb) => narrows_fields(fa, fb),
            _ => false,
        },
        NodeKindV::Array(xa) => match b.kind {
            NodeKindV::Array(xb) => narrows_all(xa, xb),
            _ => false,
        },
        NodeKindV::Mapping(xa) => match b.kind {
            NodeKindV::Mapping(xb) => narrows_all(xa, xb),
            _ => false,
        },
    }
}

/// Each of `xs`, in order, narrows another of `ys`, in order.
pub open spec fn narrows_all(xs: Seq<NodeV>, ys: Seq<NodeV>) -> bool
    decreases ys, 0int,
{
    if xs.len() == 0 {
        true
    } else if ys.len() == 0 {
        false
    } else {
        let ys0 = ys.subrange(0, ys.len() - 1);
        ||| narrows(xs.last(), ys.last()) && narrows_all(xs.subrange(0, xs.len() - 1), ys0)
        ||| narrows_all(xs, ys0)
    }
}

/// Each of the fields `xs`, in order, has the name of another of the
/// fields `ys`, in order, and narrows its node.
pub open spec fn narrows_fields(xs: Seq<(Seq<char>, NodeV)>, ys: Seq<(Seq<char>, NodeV)>) -> bool
    decreases ys, 0int,
{
    if xs.len() == 0 {
        true
    } else if ys.len() == 0 {
        false
    } else {
        let ys0 = ys.subrange(0, ys.len() - 1);
        ||| xs.last().0 == ys.last().0 && narrows(xs.last().1, ys.last().1) && narrows_fields(
            xs.subrange(0, xs.len() - 1),
            ys0,
        )
        ||| narrows_fields(xs, ys0)
    }
}

proof fn lemma_narrows_all(xs: Seq<NodeV>, ys: Seq<NodeV>)
    requires
        narrows_all(xs, ys),
    ensures
        forall|i: int| 0 <= i < xs.len() ==> exists|k: int| 0 <= k < ys.len() && narrows(#[trigger] xs[i], ys[k]),
    decreases ys.len(),
{
    if xs.len() > 0 {
        let ys0 = ys.subrange(0, ys.len() - 1);
        let xs0 = xs.subrange(0, xs.len() - 1);
        if narrows(xs.last(), ys.last()) && narrows_all(xs0, ys0) {
            lemma_narrows_all(xs0, ys0);
            assert forall|i: int| 0 <= i < xs.len() implies exists|k: int| 0 <= k < ys.len() && narrows(#[trigger] xs[i], ys[k]) by {
                if i == xs.len() - 1 {
                    assert(narrows(xs[i], ys[ys.len() - 1]));
                } else {
                    assert(xs0[i] == xs[i]);
                    let k = choose|k: int| 0 <= k < ys0.len() && narrows(xs0[i], ys0[k]);
                    assert(ys0[k] == ys[k]);
                }
            }
        } else {
            lemma_narrows_all(xs, ys0);
            assert forall|i: int| 0 <= i < xs.len() implies exists|k: int| 0 <= k < ys.len() && narrows(#[trigger] xs[i], ys[k]) by {
                let k = choose|k: int| 0 <= k < ys0.len() && narrows(xs[i], ys0[k]);
                assert(ys0[k] == ys[k]);
            }
        }
    }
}

proof fn lemma_narrows_fields(xs: Seq<(Seq<char>, NodeV)>, ys: Seq<(Seq<char>, NodeV)>)
    requires
        narrows_fields(xs, ys),
    ensures
        forall|i: int|
            0 <= i < xs.len() ==> exists|k: int|
                0 <= k < ys.len() && ys[k].0 == (#[trigger] xs[i]).0 && narrows(xs[i].1, ys[k].1),
    decreases ys.len(),
{
    if xs.len() > 0 {
        let ys0 = ys.subrange(0, ys.len() - 1);
        let xs0 = xs.subrange(0, xs.len() - 1);
        if xs.last().0 == ys.last().0 && narrows(xs.last().1, ys.last().1) && narrows_fields(xs0, ys0) {
            lemma_narrows_fields(xs0, ys0);
            assert forall|i: int| 0 <= i < xs.len() implies exists|k: int|
                0 <= k < ys.len() && ys[k].0 == (#[trigger] xs[i]).0 && narrows(xs[i].1, ys[k].1) by {
                if i == xs.len() - 1 {
                    let k = ys.len() - 1;
                    assert(ys[k].0 == xs[i].0 && narrows(xs[i].1, ys[k].1));
                } else {
                    assert(xs0[i] == xs[i]);
                    let k = choose|k: int| 0 <= k < ys0.len() && ys0[k].0 == xs0[i].0 && narrows(xs0[i].1, ys0[k].1);
                    assert(ys0[k] == ys[k]);
                }
            }
        } else {
            lemma_narrows_fields(xs, ys0);
            assert forall|i: int| 0 <= i < xs.len() implies exists|k: int|
                0 <= k < ys.len() && ys[k].0 == (#[trigger] xs[i]).0 && narrows(xs[i].1, ys[k].1) by {
                let k = choose|k: int| 0 <= k < ys0.len() && ys0[k].0 == xs[i].0 && narrows(xs[i].1, ys0[k].1);
                assert(ys0[k] == ys[k]);
            }
        }
    }
}

/// A node that passes against a type still passes with some of its fields
/// or fragments left out, at any depth, or with some of the nodes under it
/// replaced by leaves.
pub proof fn law_validate_narrows(a: NodeV, b: NodeV, t: ShapeTable, s: int)
    requires
        narrows(a, b),
        validate_node(b, t, s) is Ok,
    ensures
        validate_node(a, t, s) is Ok,
    decreases b, 1int,
{
    match a.kind {
        NodeKindV::Leaf => {},
        NodeKindV::Struct(_) => {
            law_validate_root_narrows(a, b, t, s);
        },
        NodeKindV::Array(xa) => {
            let xb = b.kind->Array_0;
            let item = t.entries@[s].def->item;
            lemma_narrows_all(xa, xb);
            law_validate_fragments(xb, t, item as int);
            assert forall|i: int| 0 <= i < xa.len() implies #[trigger] validate_node(xa[i], t, item as int) is Ok by {
                let k = choose|k: int| 0 <= k < xb.len() && narrows(xa[i], xb[k]);
                assert(decreases_to!(b => b.kind));
                assert(decreases_to!(b.kind => xb));
                assert(decreases_to!(xb => xb[k]));
                law_validate_narrows(xa[i], xb[k], t, item as int);
            }
            law_validate_fragments(xa, t, item as int);
        },
        NodeKindV::Mapping(xa) => {
            let xb = b.kind->Mapping_0;
            let value = t.entries@[s].def->value;
            lemma_narrows_all(xa, xb);
            law_validate_fragments(xb, t, value as int);
            assert forall|i: int| 0 <= i < xa.len() implies #[trigger] validate_node(xa[i], t, value as int) is Ok by {
                let k = choose|k: int| 0 <= k < xb.len() && narrows(xa[i], xb[k]);
                assert(decreases_to!(b => b.kind));
                assert(decreases_to!(b.kind => xb));
                assert(decreases_to!(xb => xb[k]));
                law_validate_narrows(xa[i], xb[k], t, value as int);
            }
            law_validate_fragments(xa, t, value as int);
        },
    }
}

/// A document that passes against a struct type still passes with some of
/// its fields or fragments left out, at any depth, or with some of the
/// nodes under its root replaced by leaves.
pub proof fn law_validate_root_narrows(a: NodeV, b: NodeV, t: ShapeTable, s: int)
    requires
        narrows(a, b),
        !(a.kind is Leaf),
        validate_struct(b, t, s) is Ok,
    ensures
        validate_struct(a, t, s) is Ok,
    decreases b, 0int,
{
    let fields = t.entries@[s].ty->fields@;
    let fa = a.kind->Struct_0;
    let fb = b.kind->Struct_0;
    lemma_narrows_fields(fa, fb);
    law_validate_fields(fb, fields, t, b.span);
    assert forall|i: int| 0 <= i < fa.len() implies (#[trigger] last_field(fields, fa[i].0, fields.len() as int)
        matches Some(f) && validate_node(fa[i].1, t, fields[f].shape as int) is Ok) by {
        let k = choose|k: int| 0 <= k < fb.len() && fb[k].0 == fa[i].0 && narrows(fa[i].1, fb[k].1);
        assert(last_field(fields, fb[k].0, fields.len() as int) matches Some(f) && validate_node(
            fb[k].1,
            t,
            fields[f].shape as int,
        ) is Ok);
        let f = last_field(fields, fb[k].0, fields.len() as int)->Some_0;
        assert(decreases_to!(b => b.kind));
        assert(decreases_to!(b.kind => fb));
        assert(decreases_to!(fb => fb[k]));
        assert(decreases_to!(fb[k] => fb[k].1));
        law_validate_narrows(fa[i].1, fb[k].1, t, fields[f].shape as int);
    }
    law_validate_fields(fa, fields, t, a.span);
}

/// The fields `f2` hold each of the fields `f`, with its name and its type,
/// and no name twice.
pub open spec fn holds_fields(f2: Seq<ShapeField>, f: Seq<ShapeField>) -> bool {
    &&& forall|i: int|
        0 <= i < f.len() ==> exists|j: int|
            0 <= j < f2.len() && f2[j].name@ == (#[trigger] f[i]).name@ && f2[j].shape == f[i].shape
    &&& forall|i: int, j: int|
        0 <= i < j < f2.len() ==> (#[trigger] f2[i]).name@ != (#[trigger] f2[j]).name@
}

/// `t2` is the table `t` in which struct types may have gained fields.
pub open spec fn widens(t2: ShapeTable, t: ShapeTable) -> bool {
    &&& t2.entries@.len() == t.entries@.len()
    &&& forall|s: int|
        0 <= s < t.entries@.len() ==> {
            &&& (#[trigger] t2.entries@[s]).def == t.entries@[s].def
            &&& (t.entries@[s].ty is Struct ==> t2.entries@[s].ty is Struct && holds_fields(
                t2.entries@[s].ty->fields@,
                t.entries@[s].ty->fields@,
            ))
        }
}

proof fn lemma_last_field(fs: Seq<ShapeField>, k: Seq<char>, n: int)
    requires
        0 <= n <= fs.len(),
    ensures
        last_field(fs, k, n) matches Some(x) ==> 0 <= x < n && fs[x].name@ == k,
        last_field(fs, k, n) is None ==> forall|j: int| 0 <= j < n ==> (#[trigger] fs[j]).name@ != k,
    decreases n,
{
    if n > 0 && fs[n - 1].name@ != k {
        lemma_last_field(fs, k, n - 1);
    }
}

/// A node that passes against a type still passes when struct types of the
/// table gain fields.
pub proof fn law_validate_node_widens(n: NodeV, t: ShapeTable, t2: ShapeTable, s: int)
    requires
        widens(t2, t),
        t.wf(),
        0 <= s < t.entries@.len(),
        validate_node(n, t, s) is Ok,
    ensures
        validate_node(n, t2, s) is Ok,
    decreases n, 1int,
{
    assert(entry_wf(t.entries@[s], t.entries@.len() as int));
    assert(t2.entries@[s].def == t.entries@[s].def);
    match n.kind {
        NodeKindV::Leaf => {},
        NodeKindV::Struct(_) => {
            law_validate_widens(n, t, t2, s);
        },
        NodeKindV::Array(frags) => {
            let item = t.entries@[s].def->item as int;
            law_validate_fragments(frags, t, item);
            assert forall|j: int| 0 <= j < frags.len() implies #[trigger] validate_node(frags[j], t2, item) is Ok by {
                assert(validate_node(frags[j], t, item) is Ok);
                assert(decreases_to!(n => n.kind));
                assert(decreases_to!(n.kind => frags));
                assert(decreases_to!(frags => frags[j]));
                law_validate_node_widens(frags[j], t, t2, item);
            }
            law_validate_fragments(frags, t2, item);
        },
        NodeKindV::Mapping(frags) => {
            let value = t.entries@[s].def->value as int;
            law_validate_fragments(frags, t, value);
            assert forall|j: int| 0 <= j < frags.len() implies #[trigger] validate_node(frags[j], t2, value) is Ok by {
                assert(validate_node(frags[j], t, value) is Ok);
                assert(decreases_to!(n => n.kind));
                assert(decreases_to!(n.kind => frags));
                assert(decreases_to!(frags => frags[j]));
                law_validate_node_widens(frags[j], t, t2, value);
            }
            law_validate_fragments(frags, t2, value);
        },
    }
}

/// A document that passes against a struct type still passes against a
/// struct type with the same fields and more, and so when any struct type
/// of the table gains fields.
pub proof fn law_validate_widens(n: NodeV, t: ShapeTable, t2: ShapeTable, s: int)
    requires
        widens(t2, t),
        t.wf(),
        0 <= s < t.entries@.len(),
        validate_struct(n, t, s) is Ok,
    ensures
        validate_struct(n, t2, s) is Ok,
    decreases n, 0int,
{
    assert(entry_wf(t.entries@[s], t.entries@.len() as int));
    assert(t2.entries@[s].def == t.entries@[s].def);
    let fields = t.entries@[s].ty->fields@;
    let f2 = t2.entries@[s].ty->fields@;
    let ch = n.kind->Struct_0;
    law_validate_fields(ch, fields, t, n.span);
    assert forall|j: int| 0 <= j < ch.len() implies (#[trigger] last_field(f2, ch[j].0, f2.len() as int)
        matches Some(x) && validate_node(ch[j].1, t2, f2[x].shape as int) is Ok) by {
        assert(last_field(fields, ch[j].0, fields.len() as int) matches Some(f) && validate_node(
            ch[j].1,
            t,
            fields[f].shape as int,
        ) is Ok);
        let f = last_field(fields, ch[j].0, fields.len() as int)->Some_0;
        lemma_last_field(fields, ch[j].0, fields.len() as int);
        let j2 = choose|j2: int| 0 <= j2 < f2.len() && f2[j2].name@ == fields[f].name@ && f2[j2].shape == fields[f].shape;
        lemma_last_field(f2, ch[j].0, f2.len() as int);
        let x = last_field(f2, ch[j].0, f2.len() as int)->Some_0;
        if x != j2 {
            if x < j2 {
                assert(f2[x].name@ != f2[j2].name@);
            } else {
                assert(f2[j2].name@ != f2[x].name@);
            }
        }
        assert(decreases_to!(n => n.kind));
        assert(decreases_to!(n.kind => ch));
        assert(decreases_to!(ch => ch[j]));
        assert(decreases_to!(ch[j] => ch[j].1));
        law_validate_node_widens(ch[j].1, t, t2, fields[f].shape as int);
    }
    law_validate_fields(ch, f2, t2, n.span);
}

/// `b[off..le]` is a whole line or the start of one: it starts the text or
/// follows a newline, and holds no newline.
pub open spec fn is_line(b: Seq<u8>, off: int, le: int) -> bool {
    &&& 0 <= off <= le <= b.len()
    &&& (off == 0 || b[off - 1] == NEWLINE)
    &&& forall|k: int| off <= k < le ==> b[k] != NEWLINE
}

/// Where the first character of the line `b[off..le]` that is not white
/// space stands.
pub open spec fn first_visible(b: Seq<u8>, off: int, le: int) -> int {
    off + trim_start_from(b.subrange(off, le), 0, le - off)
}

proof fn lemma_trim_start_bounds(b: Seq<u8>, i: int, e: int)
    requires
        0 <= i <= e <= b.len(),
    ensures
        i <= trim_start_from(b, i, e) <= e,
    decreases e - i,
{
    if crate::text::ws_width(b, i, e) > 0 {
        lemma_trim_start_bounds(b, i + crate::text::ws_width(b, i, e), e);
    }
}

proof fn lemma_no_newline_count(s: Seq<u8>)
    requires
        forall|k: int| 0 <= k < s.len() ==> s[k] != NEWLINE,
    ensures
        newline_count(s) == 0,
    decreases s.len(),
{
    if s.len() > 0 {
        lemma_no_newline_count(s.drop_last());
    }
}

/// The position given to a described line is the one `Span::from_offset`
/// gives for its first character that is not white space.
pub proof fn law_line_span_is_from_offset(b: Seq<u8>, off: int, le: int)
    requires
        is_line(b, off, le),
    ensures
        line_span(b, off, b.subrange(off, le)) == span_at(b, first_visible(b, off, le)),
{
    let lb = b.subrange(off, le);
    let w = trim_start_from(lb, 0, lb.len() as int);
    lemma_trim_start_bounds(lb, 0, lb.len() as int);
    crate::part::law_from_offset_monotone(b, off, off + w);
    lemma_no_newline_count(b.subrange(off, off + w));
    crate::part::law_column_one_at_line_start(b, off);
}

/// Entry `x` is what the line that starts at byte `o` of `b` describes: the
/// line starts the text or follows a newline and runs to the next newline
/// or the end; it reads as a described line with the indent and the
/// metadata of `x`; and the position of `x` is the one `Span::from_offset`
/// gives for the line's first character that is not white space.
pub open spec fn describes(b: Seq<u8>, o: int, x: Entry) -> bool {
    let le = find_byte(b, o, NEWLINE);
    &&& 0 <= o < b.len()
    &&& is_line(b, o, le)
    &&& line_parse(b.subrange(o, le), 0) matches Ok(((ind, Some(m)), _)) && ind == x.indent && info_of(m)
        == x.info
    &&& x.span == span_at(b, first_visible(b, o, le))
}

/// The offsets `os` are those of the lines that the entries `es` describe,
/// in order, each line after the one before.
pub open spec fn lines_of(b: Seq<u8>, es: Seq<Entry>, os: Seq<int>) -> bool {
    &&& os.len() == es.len()
    &&& forall|j: int| 0 <= j < es.len() ==> #[trigger] describes(b, os[j], es[j])
    &&& forall|j: int, k: int| 0 <= j < k < os.len() ==> #[trigger] os[j] < #[trigger] os[k]
}

proof fn lemma_scan_lines(b: Seq<u8>, off: int, st: ScanState, os: Seq<int>) -> (os2: Seq<int>)
    requires
        0 <= off,
        off < b.len() ==> (off == 0 || b[off - 1] == NEWLINE),
        lines_of(b, st.entries, os),
        forall|j: int| 0 <= j < os.len() ==> #[trigger] os[j] < off,
    ensures
        lines_of(b, scan(b, off, st).entries, os2),
    decreases b.len() - off,
{
    if off < b.len() {
        let le = find_byte(b, off, NEWLINE);
        lemma_find_byte(b, off, NEWLINE);
        let next = if le < b.len() {
            le + 1
        } else {
            le
        };
        let lb = b.subrange(off, le);
        if is_blank(lb) {
            lemma_scan_lines(b, next, st, os)
        } else {
            match line_parse(lb, 0) {
                Err(_) => os,
                Ok(((indent, None), _)) => {
                    lemma_scan_lines(b, next, ScanState { entries: st.entries, last_leaf: Some(indent) }, os)
                },
                Ok(((indent, Some(m)), _)) => {
                    if st.last_leaf matches Some(l) && indent > l {
                        os
                    } else {
                        let ne = Entry { indent, info: info_of(m), span: line_span(b, off, lb) };
                        let e2 = st.entries.push(ne);
                        let o2 = os.push(off);
                        law_line_span_is_from_offset(b, off, le);
                        assert(describes(b, off, ne));
                        assert forall|j: int| 0 <= j < e2.len() implies #[trigger] describes(b, o2[j], e2[j]) by {
                            if j < st.entries.len() {
                                assert(e2[j] == st.entries[j]);
                                assert(o2[j] == os[j]);
                            }
                        }
                        assert forall|j: int, k: int| 0 <= j < k < o2.len() implies #[trigger] o2[j] < #[trigger] o2[k] by {
                            if k == os.len() {
                                assert(os[j] < off);
                            } else {
                                assert(os[j] < os[k]);
                            }
                        }
                        lemma_scan_lines(b, next, ScanState { entries: e2, last_leaf: None }, o2)
                    }
                },
            }
        }
    } else {
        os
    }
}

/// Each described line of a document is one entry of the scan, in order:
/// the returned offsets are those of the lines, each after the one before,
/// and each entry carries its own line's indent and metadata, and the
/// position that `Span::from_offset` gives for that line's first character
/// that is not white space. `parse_raw` gives each node its entry's
/// metadata and position.
pub proof fn law_described_lines(b: Seq<u8>) -> (os: Seq<int>)
    ensures
        lines_of(b, scan_doc(b).entries, os),
{
    lemma_scan_lines(b, 0, ScanState { entries: seq![], last_leaf: None }, seq![])
}

/// The tree that `parse_raw` returns for a document with a single root is
/// that of its first described line: each later described line is a child
/// of the nearest one before it that is indented less, and the children of
/// each node are the nodes of the lines whose parent it is, in document
/// order.
pub proof fn law_parse_raw_nesting(b: Seq<u8>)
    requires
        single_root(scan_doc(b).entries),
        scan_doc(b).error is None,
        scan_doc(b).entries.len() > 0,
    ensures
        ({
            let e = scan_doc(b).entries;
            let n = e.len() as int;
            &&& raw_outcome(scan_doc(b)) == Ok::<RawNodeV, ErrorV>(tree_of(e, 0, n))
            &&& forall|j: int| 0 < j < n ==> #[trigger] has_parent(e, j)
            &&& forall|i: int, i2: int, j: int| #[trigger] is_parent(e, i, j) && #[trigger] is_parent(e, i2, j) ==> i == i2
            &&& forall|i: int| 0 <= i < n ==> (#[trigger] tree_of(e, i, n)).children == child_indices(e, i, n).map_values(
                |k: int| tree_of(e, k, n),
            )
            &&& forall|i: int, k: int| #[trigger] child_indices(e, i, n).contains(k) <==> is_parent(e, i, k)
            &&& forall|i: int, a: int, c: int|
                0 <= a < c < child_indices(e, i, n).len() ==> #[trigger] child_indices(e, i, n)[a]
                    < #[trigger] child_indices(e, i, n)[c]
        }),
{
    law_nesting(scan_doc(b).entries);
}

/// Turning the tree of described lines into a typed tree fails only with
/// a `ValidateError`.
pub proof fn law_convert_errors_are_validate_errors(r: RawNodeV)
    ensures
        convert(r) matches Err(e) ==> e is ValidateError,
    decreases r, 1int,
{
    match r.info.kind {
        Kind::Leaf => {},
        Kind::Complex(ComplexKind::Struct) => lemma_convert_fields_errors(r.children, 0, seq![]),
        _ => lemma_convert_all_errors(r.children, 0, seq![]),
    }
}

proof fn lemma_convert_all_errors(cs: Seq<RawNodeV>, i: int, acc: Seq<NodeV>)
    ensures
        convert_all(cs, i, acc) matches Err(e) ==> e is ValidateError,
    decreases cs, cs.len() - i,
{
    if 0 <= i < cs.len() {
        law_convert_errors_are_validate_errors(cs[i]);
        if let Ok(n) = convert(cs[i]) {
            lemma_convert_all_errors(cs, i + 1, acc.push(n));
        }
    }
}

proof fn lemma_convert_fields_errors(cs: Seq<RawNodeV>, i: int, acc: Seq<(Seq<char>, NodeV)>)
    ensures
        convert_fields(cs, i, acc) matches Err(e) ==> e is ValidateError,
    decreases cs, cs.len() - i,
{
    if 0 <= i < cs.len() {
        if let Some(name) = cs[i].info.name {
            law_convert_errors_are_validate_errors(cs[i]);
            if let Ok(n) = convert(cs[i]) {
                lemma_convert_fields_errors(cs, i + 1, fields_insert(acc, name, n));
            }
        }
    }
}

/// The field `f` comes from the last of the first `k` children `cs` that
/// has its name: that child converts to its node.
pub open spec fn from_last_child(cs: Seq<RawNodeV>, k: int, f: (Seq<char>, NodeV)) -> bool {
    exists|j: int|
        0 <= j < k && #[trigger] cs[j].info.name == Some(f.0) && convert(cs[j]) == Ok::<NodeV, ErrorV>(f.1)
            && forall|j2: int| j < j2 < k ==> (#[trigger] cs[j2]).info.name != Some(f.0)
}

/// Some field of `fs` has the name `nm`.
pub open spec fn names_a_field(fs: Seq<(Seq<char>, NodeV)>, nm: Option<Seq<char>>) -> bool {
    exists|i: int| 0 <= i < fs.len() && nm == Some((#[trigger] fs[i]).0)
}

proof fn lemma_fields_from_children(cs: Seq<RawNodeV>, k: int, acc: Seq<(Seq<char>, NodeV)>)
    requires
        0 <= k <= cs.len(),
        names_distinct(acc),
        forall|i: int| 0 <= i < acc.len() ==> from_last_child(cs, k, #[trigger] acc[i]),
        forall|j: int| 0 <= j < k ==> names_a_field(acc, (#[trigger] cs[j]).info.name),
    ensures
        convert_fields(cs, k, acc) matches Ok(fs) ==> {
            &&& forall|i: int| 0 <= i < fs.len() ==> from_last_child(cs, cs.len() as int, #[trigger] fs[i])
            &&& forall|j: int| 0 <= j < cs.len() ==> names_a_field(fs, (#[trigger] cs[j]).info.name)
        },
    decreases cs.len() - k,
{
    if k < cs.len() {
        if let Some(nm) = cs[k].info.name {
            if let Ok(n) = convert(cs[k]) {
                let a2 = fields_insert(acc, nm, n);
                lemma_field_index(acc, nm, 0);
                lemma_fields_insert_distinct(acc, nm, n);
                assert forall|i: int| 0 <= i < a2.len() implies from_last_child(cs, k + 1, #[trigger] a2[i]) by {
                    if a2[i] == (nm, n) {
                        assert(cs[k].info.name == Some(a2[i].0));
                    } else {
                        assert(a2[i] == acc[i]);
                        assert(acc[i].0 != nm) by {
                            if let Some(x) = field_index(acc, nm, 0) {
                                if i != x {
                                    if i < x {
                                        assert(acc[i].0 != acc[x].0);
                                    } else {
                                        assert(acc[x].0 != acc[i].0);
                                    }
                                } else {
                                    assert(a2[i] == (nm, n));
                                }
                            }
                        }
                        assert(from_last_child(cs, k, acc[i]));
                        let j = choose|j: int|
                            0 <= j < k && #[trigger] cs[j].info.name == Some(acc[i].0) && convert(cs[j])
                                == Ok::<NodeV, ErrorV>(acc[i].1) && forall|j2: int|
                                j < j2 < k ==> (#[trigger] cs[j2]).info.name != Some(acc[i].0);
                        assert forall|j2: int| j < j2 < k + 1 implies (#[trigger] cs[j2]).info.name != Some(
                            acc[i].0,
                        ) by {
                            if j2 == k {
                                assert(cs[k].info.name == Some(nm));
                            }
                        }
                        assert(cs[j].info.name == Some(a2[i].0));
                    }
                }
                assert forall|j: int| 0 <= j < k + 1 implies names_a_field(a2, (#[trigger] cs[j]).info.name) by {
                    if j == k {
                        match field_index(acc, nm, 0) {
                            Some(x) => {
                                assert(a2[x].0 == nm);
                            },
                            None => {
                                assert(a2[acc.len() as int].0 == nm);
                            },
                        }
                    } else {
                        assert(names_a_field(acc, cs[j].info.name));
                        let i = choose|i: int| 0 <= i < acc.len() && cs[j].info.name == Some((#[trigger] acc[i]).0);
                        assert(a2[i].0 == acc[i].0);
                    }
                }
                lemma_fields_from_children(cs, k + 1, a2);
            }
        }
    }
}

/// The fields of a struct node come from its children: every child's name
/// is a field, and each field's node is what the last child with that name
/// converts to.
pub proof fn law_struct_fields_from_children(cs: Seq<RawNodeV>)
    ensures
        convert_fields(cs, 0, seq![]) matches Ok(fs) ==> {
            &&& forall|i: int| 0 <= i < fs.len() ==> from_last_child(cs, cs.len() as int, #[trigger] fs[i])
            &&& forall|j: int| 0 <= j < cs.len() ==> names_a_field(fs, (#[trigger] cs[j]).info.name)
        },
{
    lemma_fields_from_children(cs, 0, seq![]);
}

/// What the children `cs` convert to, each assumed to convert.
pub open spec fn converted(cs: Seq<RawNodeV>) -> Seq<NodeV> {
    Seq::new(cs.len(), |k: int| convert(cs[k])->Ok_0)
}

/// Each of the first `m` children `cs` converts.
pub open spec fn converts_before(cs: Seq<RawNodeV>, m: int) -> bool {
    forall|k: int| 0 <= k < m ==> #[trigger] convert(cs[k]) is Ok
}

/// Child `m` of `cs` is the first that does not convert.
pub open spec fn first_failure(cs: Seq<RawNodeV>, m: int) -> bool {
    &&& 0 <= m < cs.len()
    &&& convert(cs[m]) is Err
    &&& converts_before(cs, m)
}

proof fn lemma_convert_all_from(cs: Seq<RawNodeV>, i: int, acc: Seq<NodeV>)
    requires
        0 <= i <= cs.len(),
    ensures
        (forall|k: int| i <= k < cs.len() ==> #[trigger] convert(cs[k]) is Ok) ==> convert_all(cs, i, acc)
            == Ok::<Seq<NodeV>, ErrorV>(acc + converted(cs).subrange(i, cs.len() as int)),
    decreases cs.len() - i,
{
    if i < cs.len() {
        lemma_convert_all_from(cs, i + 1, acc.push(convert(cs[i])->Ok_0));
        if convert(cs[i]) is Ok {
            assert(acc.push(convert(cs[i])->Ok_0) + converted(cs).subrange(i + 1, cs.len() as int) =~= acc + converted(
                cs,
            ).subrange(i, cs.len() as int));
        }
    } else {
        assert(acc + converted(cs).subrange(i, cs.len() as int) =~= acc);
    }
}

/// The children of an array or a map become its fragments, whatever their
/// names: when each of them converts, the node converts to its position and
/// what they convert to, in order; otherwise it fails with the error of the
/// first child that does not convert.
pub proof fn law_convert_fragments(r: RawNodeV)
    requires
        r.info.kind == Kind::Complex(ComplexKind::Array) || r.info.kind == Kind::Complex(ComplexKind::Mapping),
    ensures
        converts_before(r.children, r.children.len() as int) ==> convert(r) == Ok::<NodeV, ErrorV>(
            NodeV {
                span: r.span,
                kind: if r.info.kind == Kind::Complex(ComplexKind::Array) {
                    NodeKindV::Array(converted(r.children))
                } else {
                    NodeKindV::Mapping(converted(r.children))
                },
            },
        ),
        forall|m: int| #[trigger] first_failure(r.children, m) ==> convert(r) == Err::<NodeV, ErrorV>(
            convert(r.children[m])->Err_0,
        ),
{
    let cs = r.children;
    lemma_convert_all_from(cs, 0, seq![]);
    if converts_before(cs, cs.len() as int) {
        assert(Seq::<NodeV>::empty() + converted(cs).subrange(0, cs.len() as int) =~= converted(cs));
    }
    assert forall|m: int| #[trigger] first_failure(cs, m) implies convert(r) == Err::<NodeV, ErrorV>(
        convert(cs[m])->Err_0,
    ) by {
        lemma_first_failure(cs, 0, seq![], m);
    }
}

proof fn lemma_first_failure(cs: Seq<RawNodeV>, i: int, acc: Seq<NodeV>, m: int)
    requires
        0 <= i <= m < cs.len(),
        convert(cs[m]) is Err,
        forall|k: int| i <= k < m ==> #[trigger] convert(cs[k]) is Ok,
    ensures
        convert_all(cs, i, acc) == Err::<Seq<NodeV>, ErrorV>(convert(cs[m])->Err_0),
    decreases m - i,
{
    if i < m {
        lemma_first_failure(cs, i + 1, acc.push(convert(cs[i])->Ok_0), m);
    }
}

/// Child `c` of a struct is named and converts.
pub open spec fn field_ok(c: RawNodeV) -> bool {
    c.info.name is Some && convert(c) is Ok
}

/// The error of a child `c` of a struct that is not `field_ok`: a child
/// without a name must be named; a named one fails as it converts.
pub open spec fn field_error(c: RawNodeV) -> ErrorV {
    match c.info.name {
        None => ErrorV::ValidateError { span: c.span, msg: unnamed_field_msg() },
        Some(_) => convert(c)->Err_0,
    }
}

/// Each of the first `m` children `cs` of a struct is named and converts.
pub open spec fn fields_ok_before(cs: Seq<RawNodeV>, m: int) -> bool {
    forall|k: int| 0 <= k < m ==> #[trigger] field_ok(cs[k])
}

proof fn lemma_fields_from(cs: Seq<RawNodeV>, i: int, acc: Seq<(Seq<char>, NodeV)>)
    requires
        0 <= i <= cs.len(),
    ensures
        convert_fields(cs, i, acc) is Ok <==> forall|k: int| i <= k < cs.len() ==> #[trigger] field_ok(cs[k]),
    decreases cs.len() - i,
{
    if i < cs.len() {
        if field_ok(cs[i]) {
            let name = cs[i].info.name->Some_0;
            let n = convert(cs[i])->Ok_0;
            lemma_fields_from(cs, i + 1, fields_insert(acc, name, n));
        } else {
            assert(!field_ok(cs[i]));
        }
    }
}

proof fn lemma_fields_first_failure(cs: Seq<RawNodeV>, i: int, acc: Seq<(Seq<char>, NodeV)>, m: int)
    requires
        0 <= i <= m < cs.len(),
        !field_ok(cs[m]),
        forall|k: int| i <= k < m ==> #[trigger] field_ok(cs[k]),
    ensures
        convert_fields(cs, i, acc) == Err::<Seq<(Seq<char>, NodeV)>, ErrorV>(field_error(cs[m])),
    decreases m - i,
{
    if i < m {
        assert(field_ok(cs[i]));
        let name = cs[i].info.name->Some_0;
        let n = convert(cs[i])->Ok_0;
        lemma_fields_first_failure(cs, i + 1, fields_insert(acc, name, n), m);
    }
}

/// Collecting the fields of a struct succeeds exactly when each child is
/// named and converts; otherwise it fails with the error of the first child
/// that is not, which for a child without a name is that a struct field
/// must be named.
pub proof fn law_collect_fields(cs: Seq<RawNodeV>)
    ensures
        convert_fields(cs, 0, seq![]) is Ok <==> fields_ok_before(cs, cs.len() as int),
        forall|m: int|
            0 <= m < cs.len() && !field_ok(cs[m]) && #[trigger] fields_ok_before(cs, m) ==> convert_fields(
                cs,
                0,
                seq![],
            ) == Err::<Seq<(Seq<char>, NodeV)>, ErrorV>(field_error(cs[m])),
{
    lemma_fields_from(cs, 0, seq![]);
    assert forall|m: int| 0 <= m < cs.len() && !field_ok(cs[m]) && #[trigger] fields_ok_before(cs, m) implies convert_fields(
        cs,
        0,
        seq![],
    ) == Err::<Seq<(Seq<char>, NodeV)>, ErrorV>(field_error(cs[m])) by {
        lemma_fields_first_failure(cs, 0, seq![], m);
    }
}

/// A byte that `str::trim` removes and that is a character by itself: a
/// space, a tab, a line feed, a vertical tab, a form feed or a carriage
/// return.
pub open spec fn is_ascii_space(x: u8) -> bool {
    x == 32 || (9 <= x && x <= 13)
}

/// `o` is where a line of `b` starts.
pub open spec fn starts_line(b: Seq<u8>, o: int) -> bool {
    0 <= o < b.len() && (o == 0 || b[o - 1] == NEWLINE)
}

/// The bytes of the line that starts at `o`, up to its newline.
pub open spec fn line_bytes(b: Seq<u8>, o: int) -> Seq<u8> {
    b.subrange(o, find_byte(b, o, NEWLINE))
}

/// Where the line after the one at `o` starts (the end of `b` after the
/// last line).
pub open spec fn next_line(b: Seq<u8>, o: int) -> int {
    let le = find_byte(b, o, NEWLINE);
    if le < b.len() {
        le + 1
    } else {
        le
    }
}

/// The line at `o` holds nothing but such white space.
pub open spec fn space_line(b: Seq<u8>, o: int) -> bool {
    forall|k: int| 0 <= k < line_bytes(b, o).len() ==> is_ascii_space(#[trigger] line_bytes(b, o)[k])
}

/// The line at `o` is a bare line of indent `ind`: it reads as a line with
/// no metadata block.
pub open spec fn bare_at(b: Seq<u8>, o: int, ind: int) -> bool {
    &&& starts_line(b, o)
    &&& line_parse(line_bytes(b, o), 0) matches Ok(((i, None), _)) && i == ind
}

/// The line at `o` is a described line of indent `ind`: it reads as a line
/// with a metadata block.
pub open spec fn described_at(b: Seq<u8>, o: int, ind: int) -> bool {
    &&& starts_line(b, o)
    &&& line_parse(line_bytes(b, o), 0) matches Ok(((i, Some(_)), _)) && i == ind
}

proof fn lemma_space_line_blank(lb: Seq<u8>, i: int)
    requires
        0 <= i <= lb.len(),
        forall|k: int| 0 <= k < lb.len() ==> is_ascii_space(#[trigger] lb[k]),
    ensures
        trim_start_from(lb, i, lb.len() as int) == lb.len(),
    decreases lb.len() - i,
{
    if i < lb.len() {
        assert(is_ascii_space(lb[i]));
        assert(crate::text::ws_width(lb, i, lb.len() as int) == 1);
        lemma_space_line_blank(lb, i + 1);
    }
}

proof fn lemma_spaces_before(lb: Seq<u8>, p: int)
    requires
        0 <= p <= lb.len(),
    ensures
        p <= crate::scan::skip_byte_run(lb, p, crate::text::SPACE) <= lb.len(),
        forall|k: int| p <= k < crate::scan::skip_byte_run(lb, p, crate::text::SPACE) ==> #[trigger] lb[k]
            == crate::text::SPACE,
    decreases lb.len() - p,
{
    if p < lb.len() && lb[p] == crate::text::SPACE {
        lemma_spaces_before(lb, p + 1);
    }
}

proof fn lemma_trim_to_dash(lb: Seq<u8>, i: int, d: int)
    requires
        0 <= i <= d < lb.len(),
        lb[d] == crate::text::DASH,
        forall|k: int| i <= k < d ==> #[trigger] lb[k] == crate::text::SPACE,
    ensures
        trim_start_from(lb, i, lb.len() as int) == d,
    decreases d - i,
{
    if i < d {
        assert(lb[i] == crate::text::SPACE);
        lemma_trim_to_dash(lb, i + 1, d);
    }
}

/// A line that reads, bare or described, is not blank: it has a dash.
proof fn lemma_read_line_not_blank(lb: Seq<u8>)
    requires
        line_parse(lb, 0) is Ok,
    ensures
        !is_blank(lb),
{
    lemma_spaces_before(lb, 0);
    let d = crate::scan::skip_byte_run(lb, 0, crate::text::SPACE);
    lemma_trim_to_dash(lb, 0, d);
}

proof fn lemma_line_facts(b: Seq<u8>, o: int)
    requires
        starts_line(b, o),
    ensures
        o <= find_byte(b, o, NEWLINE) <= b.len(),
        forall|k: int| o <= k < find_byte(b, o, NEWLINE) ==> b[k] != NEWLINE,
        find_byte(b, o, NEWLINE) < b.len() ==> b[find_byte(b, o, NEWLINE)] == NEWLINE,
        next_line(b, o) > o,
        next_line(b, o) < b.len() ==> starts_line(b, next_line(b, o)),
        forall|o2: int| o < o2 && starts_line(b, o2) ==> next_line(b, o) <= o2,
{
    lemma_find_byte(b, o, NEWLINE);
    assert forall|o2: int| o < o2 && starts_line(b, o2) implies next_line(b, o) <= o2 by {
        assert(b[o2 - 1] == NEWLINE);
    }
}

/// A line of white space alone, carriage returns included, is skipped, and
/// changes nothing: reading the document from it gives what reading from
/// the next line gives, with what was read before kept as it was, the
/// remembered bare line included.
pub proof fn law_space_lines_skipped(b: Seq<u8>, o: int, st: ScanState)
    requires
        starts_line(b, o),
        space_line(b, o),
    ensures
        scan(b, o, st) == scan(b, next_line(b, o), st),
{
    lemma_line_facts(b, o);
    lemma_space_line_blank(line_bytes(b, o), 0);
}

proof fn lemma_after_bare(b: Seq<u8>, off: int, e: Seq<Entry>, o1: int, i1: int, o2: int, i2: int)
    requires
        starts_line(b, off),
        o1 < off <= o2,
        described_at(b, o2, i2),
        i1 < i2,
        forall|o: int| o1 < o < o2 && starts_line(b, o) ==> space_line(b, o),
    ensures
        scan(b, off, ScanState { entries: e, last_leaf: Some(i1) }).error is Some,
    decreases o2 - off,
{
    lemma_line_facts(b, off);
    if off == o2 {
        lemma_read_line_not_blank(line_bytes(b, o2));
    } else {
        lemma_space_line_blank(line_bytes(b, off), 0);
        lemma_after_bare(b, next_line(b, off), e, o1, i1, o2, i2);
    }
}

proof fn lemma_reach_bare(b: Seq<u8>, off: int, st: ScanState, o1: int, i1: int, o2: int, i2: int)
    requires
        starts_line(b, off),
        off <= o1 < o2,
        bare_at(b, o1, i1),
        described_at(b, o2, i2),
        i1 < i2,
        forall|o: int| o1 < o < o2 && starts_line(b, o) ==> space_line(b, o),
    ensures
        scan(b, off, st).error is Some,
    decreases o1 - off,
{
    lemma_line_facts(b, off);
    let next = next_line(b, off);
    let lb = line_bytes(b, off);
    if off == o1 {
        lemma_read_line_not_blank(lb);
        lemma_after_bare(b, next, st.entries, o1, i1, o2, i2);
    } else if is_blank(lb) {
        lemma_reach_bare(b, next, st, o1, i1, o2, i2);
    } else {
        match line_parse(lb, 0) {
            Err(_) => {},
            Ok(((indent, None), _)) => {
                lemma_reach_bare(b, next, ScanState { entries: st.entries, last_leaf: Some(indent) }, o1, i1, o2, i2);
            },
            Ok(((indent, Some(m)), _)) => {
                if !(st.last_leaf matches Some(l) && indent > l) {
                    let ne = Entry { indent, info: info_of(m), span: line_span(b, off, lb) };
                    lemma_reach_bare(
                        b,
                        next,
                        ScanState { entries: st.entries.push(ne), last_leaf: None },
                        o1,
                        i1,
                        o2,
                        i2,
                    );
                }
            },
        }
    }
}

/// A described line that comes after a bare line, with nothing but lines of
/// white space between them, and that is indented deeper than that bare
/// line, makes reading the document fail: `parse_raw` returns an error,
/// whatever bare lines came before.
pub proof fn law_described_under_bare_line_fails(b: Seq<u8>, o1: int, i1: int, o2: int, i2: int)
    requires
        bare_at(b, o1, i1),
        described_at(b, o2, i2),
        o1 < o2,
        i1 < i2,
        forall|o: int| o1 < o < o2 && starts_line(b, o) ==> space_line(b, o),
    ensures
        scan_doc(b).error is Some,
        raw_outcome(scan_doc(b)) is Err,
{
    lemma_reach_bare(b, 0, ScanState { entries: seq![], last_leaf: None }, o1, i1, o2, i2);
}

} // verus!
