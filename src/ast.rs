//! The typed syntax tree and the facts every parsed node satisfies.
use vstd::prelude::*;
use crate::text::{has_at, utf8, is_cut, is_markup, is_space, run_end, Class};

verus! {

#[derive(Debug, Clone, Copy, PartialEq, Eq, Structural)]
pub enum CommandStyle {
    /// `\cmd[opt=..]{argument}`
    TexStyle,
    /// `\cmd[argument][opt=..]`
    ContextStyle,
}

#[derive(Debug, Clone, Copy, PartialEq, Eq, Structural)]
pub enum ArgumentStyle {
    /// At most one brace group.
    Explicit,
    /// The rest of the line, as with `\item`.
    LineEnding,
    /// The rest of the enclosing brace group, as with `\bf`.
    GroupScoped,
}

/// A byte range `[start, end)` of the source, with the 1-based line and
/// (byte) column of its start.
#[derive(Debug, Clone, Copy, PartialEq, Eq, Structural)]
pub struct SourceSpan {
    pub start: usize,
    pub end: usize,
    pub start_line: usize,
    pub start_col: usize,
}

impl SourceSpan {
    pub fn line_col(&self) -> (r: (usize, usize))
        ensures
            r == (self.start_line, self.start_col),
    {
        (self.start_line, self.start_col)
    }

    pub fn range(&self) -> (r: std::ops::Range<usize>)
        ensures
            r.start == self.start,
            r.end == self.end,
    {
        std::ops::Range { start: self.start, end: self.end }
    }

    pub fn len(&self) -> (r: usize)
        requires
            self.start <= self.end,
        ensures
            r == self.end - self.start,
    {
        self.end - self.start
    }

    pub fn is_empty(&self) -> (r: bool)
        ensures
            r == (self.start == self.end),
    {
        self.start == self.end
    }
}

/// `key=value` pairs of an option group, in order of first appearance, keys
/// unique.
pub type OptionList = Vec<(String, String)>;

#[derive(Debug, PartialEq)]
pub enum ConTeXtNode {
    Document { preamble: Vec<ConTeXtNode>, body: Vec<ConTeXtNode> },
    Command {
        name: String,
        style: CommandStyle,
        arg_style: ArgumentStyle,
        options: OptionList,
        arguments: Vec<ConTeXtNode>,
        span: SourceSpan,
    },
    StartStop { name: String, options: OptionList, content: Vec<ConTeXtNode>, span: SourceSpan },
    Text { content: String, span: SourceSpan },
    Comment { content: String, span: SourceSpan },
}

/// The mathematical value of a node: its texts as UTF-8 bytes, its
/// options as byte pairs, and its children's values.
pub enum NodeV {
    Document(Seq<NodeV>, Seq<NodeV>),
    Command(Seq<u8>, CommandStyle, ArgumentStyle, Seq<(Seq<u8>, Seq<u8>)>, Seq<NodeV>, SourceSpan),
    StartStop(Seq<u8>, Seq<(Seq<u8>, Seq<u8>)>, Seq<NodeV>, SourceSpan),
    Text(Seq<u8>, SourceSpan),
    Comment(Seq<u8>, SourceSpan),
}

pub open spec fn node_view(n: ConTeXtNode) -> NodeV
    decreases n,
{
    match n {
        ConTeXtNode::Document { preamble, body } => NodeV::Document(nodes_view(preamble@), nodes_view(body@)),
        ConTeXtNode::Command { name, style, arg_style, options, arguments, span } => NodeV::Command(
            utf8(name@),
            style,
            arg_style,
            option_pairs(options@),
            nodes_view(arguments@),
            span,
        ),
        ConTeXtNode::StartStop { name, options, content, span } => NodeV::StartStop(
            utf8(name@),
            option_pairs(options@),
            nodes_view(content@),
            span,
        ),
        ConTeXtNode::Text { content, span } => NodeV::Text(utf8(content@), span),
        ConTeXtNode::Comment { content, span } => NodeV::Comment(utf8(content@), span),
    }
}

pub open spec fn nodes_view(ns: Seq<ConTeXtNode>) -> Seq<NodeV>
    decreases ns,
{
    if ns.len() == 0 {
        seq![]
    } else {
        nodes_view(ns.drop_last()).push(node_view(ns.last()))
    }
}

pub proof fn lemma_nodes_view_push(ns: Seq<ConTeXtNode>, x: ConTeXtNode)
    ensures
        nodes_view(ns.push(x)) == nodes_view(ns).push(node_view(x)),
{
    assert(ns.push(x).drop_last() =~= ns);
}

pub proof fn lemma_nodes_view_empty()
    ensures
        nodes_view(Seq::<ConTeXtNode>::empty()) == Seq::<NodeV>::empty(),
{
}

/// The span of a node; the document has none.
pub open spec fn span_of(n: ConTeXtNode) -> Option<SourceSpan> {
    match n {
        ConTeXtNode::Document { .. } => None,
        ConTeXtNode::Command { span, .. } => Some(span),
        ConTeXtNode::StartStop { span, .. } => Some(span),
        ConTeXtNode::Text { span, .. } => Some(span),
        ConTeXtNode::Comment { span, .. } => Some(span),
    }
}

/// The direct children of a node, in order.
pub open spec fn children_of(n: ConTeXtNode) -> Seq<ConTeXtNode> {
    match n {
        ConTeXtNode::Document { preamble, body } => preamble@ + body@,
        ConTeXtNode::Command { arguments, .. } => arguments@,
        ConTeXtNode::StartStop { content, .. } => content@,
        _ => seq![],
    }
}

impl ConTeXtNode {
    pub fn span(&self) -> (r: Option<&SourceSpan>)
        ensures
            r matches Some(s) ==> span_of(*self) == Some(*s),
            r is None ==> span_of(*self) is None,
    {
        match self {
            ConTeXtNode::Command { span, .. } => Some(span),
            ConTeXtNode::StartStop { span, .. } => Some(span),
            ConTeXtNode::Text { span, .. } => Some(span),
            ConTeXtNode::Comment { span, .. } => Some(span),
            ConTeXtNode::Document { .. } => None,
        }
    }

    pub fn children(&self) -> (r: Vec<&ConTeXtNode>)
        ensures
            r@.len() == children_of(*self).len(),
            forall|k: int| 0 <= k < r@.len() ==> *r@[k] == children_of(*self)[k],
    {
        let mut out: Vec<&ConTeXtNode> = Vec::new();
        match self {
            ConTeXtNode::Document { preamble, body } => {
                push_all(&mut out, preamble);
                push_all(&mut out, body);
            },
            ConTeXtNode::Command { arguments, .. } => {
                push_all(&mut out, arguments);
            },
            ConTeXtNode::StartStop { content, .. } => {
                push_all(&mut out, content);
            },
            _ => {},
        }
        out
    }
}

fn push_all<'a>(out: &mut Vec<&'a ConTeXtNode>, ns: &'a Vec<ConTeXtNode>)
    ensures
        final(out)@.len() == old(out)@.len() + ns@.len(),
        forall|k: int| 0 <= k < old(out)@.len() ==> final(out)@[k] == old(out)@[k],
        forall|k: int| 0 <= k < ns@.len() ==> *final(out)@[old(out)@.len() + k] == ns@[k],
{
    let mut j: usize = 0;
    while j < ns.len()
        invariant
            j <= ns@.len(),
            out@.len() == old(out)@.len() + j,
            forall|k: int| 0 <= k < old(out)@.len() ==> out@[k] == old(out)@[k],
            forall|k: int| 0 <= k < j ==> *out@[old(out)@.len() + k] == ns@[k],
        decreases ns@.len() - j,
    {
        out.push(&ns[j]);
        j = j + 1;
    }
}

/// The number of newlines in `s` before offset `i`.
pub open spec fn newlines_before(s: Seq<u8>, i: int) -> int
    decreases i,
{
    if i <= 0 || i > s.len() {
        0
    } else {
        newlines_before(s, i - 1) + if s[i - 1] == 0x0a { 1int } else { 0int }
    }
}

/// The offset where the line holding offset `i` begins.
pub open spec fn line_begin(s: Seq<u8>, i: int) -> int
    decreases i,
{
    if i <= 0 || i > s.len() {
        0
    } else if s[i - 1] == 0x0a {
        i
    } else {
        line_begin(s, i - 1)
    }
}

/// The span of `[a, b)` in `s`.
pub open spec fn span_at(s: Seq<u8>, a: int, b: int) -> SourceSpan {
    SourceSpan {
        start: a as usize,
        end: b as usize,
        start_line: (1 + newlines_before(s, a)) as usize,
        start_col: (a - line_begin(s, a) + 1) as usize,
    }
}

/// The nodes `ns` have non-empty spans, each after the one before, all
/// within `[lo, hi]`.
pub open spec fn ordered(ns: Seq<ConTeXtNode>, lo: int, hi: int) -> bool
    decreases ns.len(),
{
    if ns.len() == 0 {
        lo <= hi
    } else {
        let last = ns.last();
        &&& span_of(last) is Some
        &&& ordered(ns.drop_last(), lo, span_of(last)->Some_0.start as int)
        &&& span_of(last)->Some_0.start < span_of(last)->Some_0.end
        &&& span_of(last)->Some_0.end <= hi
    }
}

/// The nodes `ns` have non-empty spans that follow one another without gap
/// from `lo` to `hi`.
pub open spec fn tiled(ns: Seq<ConTeXtNode>, lo: int, hi: int) -> bool
    decreases ns.len(),
{
    if ns.len() == 0 {
        lo == hi
    } else {
        let last = ns.last();
        &&& span_of(last) is Some
        &&& tiled(ns.drop_last(), lo, span_of(last)->Some_0.start as int)
        &&& span_of(last)->Some_0.start < span_of(last)->Some_0.end
        &&& span_of(last)->Some_0.end == hi
    }
}

/// The nodes `ns` follow one another without gap up to `hi`, the first
/// starting at or after `lo`.
pub open spec fn tiled_from(ns: Seq<ConTeXtNode>, lo: int, hi: int) -> bool {
    if ns.len() == 0 {
        lo <= hi
    } else {
        &&& span_of(ns[0]) is Some
        &&& lo <= span_of(ns[0])->Some_0.start
        &&& tiled(ns, span_of(ns[0])->Some_0.start as int, hi)
    }
}

/// A tiled run starts where its first node starts.
pub proof fn lemma_tiled_first(ns: Seq<ConTeXtNode>, lo: int, hi: int)
    requires
        tiled(ns, lo, hi),
        ns.len() > 0,
    ensures
        span_of(ns[0]) is Some,
        span_of(ns[0])->Some_0.start == lo,
    decreases ns.len(),
{
    if ns.len() > 1 {
        lemma_tiled_first(ns.drop_last(), lo, span_of(ns.last())->Some_0.start as int);
        assert(ns.drop_last()[0] == ns[0]);
    } else {
        assert(ns.last() == ns[0]);
        assert(tiled(ns.drop_last(), lo, span_of(ns.last())->Some_0.start as int));
        assert(ns.drop_last().len() == 0);
    }
}

pub proof fn lemma_tiled_ordered(ns: Seq<ConTeXtNode>, lo: int, hi: int)
    requires
        tiled(ns, lo, hi),
    ensures
        ordered(ns, lo, hi),
    decreases ns.len(),
{
    if ns.len() > 0 {
        lemma_tiled_ordered(ns.drop_last(), lo, span_of(ns.last())->Some_0.start as int);
    }
}

pub proof fn lemma_ordered_widen(ns: Seq<ConTeXtNode>, lo: int, hi: int, lo2: int, hi2: int)
    requires
        ordered(ns, lo, hi),
        lo2 <= lo,
        hi <= hi2,
    ensures
        ordered(ns, lo2, hi2),
    decreases ns.len(),
{
    if ns.len() > 0 {
        lemma_ordered_widen(ns.drop_last(), lo, span_of(ns.last())->Some_0.start as int, lo2, span_of(ns.last())->Some_0.start as int);
    }
}

/// The byte offsets of `s[a..b]` once white space is cut from both ends.
pub open spec fn trim_start(s: Seq<u8>, a: int, b: int) -> int
    decreases b - a,
{
    if a < b && 0 <= a < s.len() && is_space(s[a]) {
        trim_start(s, a + 1, b)
    } else {
        a
    }
}

pub open spec fn trim_end(s: Seq<u8>, a: int, b: int) -> int
    decreases b - a,
{
    if a < b && 0 < b <= s.len() && is_space(s[b - 1]) {
        trim_end(s, a, b - 1)
    } else {
        b
    }
}

/// The bytes of `s[a..b]` without leading and trailing white space.
pub open spec fn trimmed(s: Seq<u8>, a: int, b: int) -> Seq<u8> {
    let a2 = trim_start(s, a, b);
    s.subrange(a2, trim_end(s, a2, b))
}

/// The commands whose argument is the rest of the line.
pub open spec fn is_line_command(n: Seq<char>) -> bool {
    n == "item"@
}

/// The commands whose argument is the rest of the enclosing group.
pub open spec fn is_scoped_command(n: Seq<char>) -> bool {
    ||| n == "bf"@ ||| n == "it"@ ||| n == "em"@ ||| n == "tt"@ ||| n == "rm"@
    ||| n == "sf"@ ||| n == "sc"@ ||| n == "sl"@
}

/// The argument style the table gives a command name.
pub open spec fn table_style(n: Seq<char>) -> ArgumentStyle {
    if is_line_command(n) {
        ArgumentStyle::LineEnding
    } else if is_scoped_command(n) {
        ArgumentStyle::GroupScoped
    } else {
        ArgumentStyle::Explicit
    }
}

/// The offset of the first `x` in `s[i..end)`, or `end` if there is none.
pub open spec fn find_byte(s: Seq<u8>, i: int, end: int, x: u8) -> int
    decreases end - i,
{
    if i >= end || i < 0 || i >= s.len() {
        end
    } else if s[i] == x {
        i
    } else {
        find_byte(s, i + 1, end, x)
    }
}

/// The position of the entry with key `key`, or -1.
pub open spec fn key_index(os: Seq<(Seq<u8>, Seq<u8>)>, key: Seq<u8>) -> int
    decreases os.len(),
{
    if os.len() == 0 {
        -1
    } else if os.last().0 == key {
        os.len() - 1
    } else {
        key_index(os.drop_last(), key)
    }
}

/// `os` with `key` set to `value`: in place if the key is there, else at
/// the end.
pub open spec fn set_entry(os: Seq<(Seq<u8>, Seq<u8>)>, key: Seq<u8>, value: Seq<u8>) -> Seq<(Seq<u8>, Seq<u8>)> {
    let k = key_index(os, key);
    if k < 0 {
        os.push((key, value))
    } else {
        os.update(k, (key, value))
    }
}

/// The options written in `s[i..end]` (`s[end]` is the closing `]`), added
/// to `acc`: entries split on `,`, each split on its first `=`, keys and
/// values trimmed, a bare key standing for `key=true`, empty keys skipped,
/// a later value for a key replacing the earlier one.
pub open spec fn options_from(s: Seq<u8>, i: int, end: int, acc: Seq<(Seq<u8>, Seq<u8>)>) -> Seq<(Seq<u8>, Seq<u8>)>
    decreases end + 1 - i,
{
    if i > end || i < 0 {
        acc
    } else {
        let j = find_byte(s, i, end, 0x2c);
        let k = find_byte(s, i, j, 0x3d);
        let key = trimmed(s, i, k);
        let next = if key.len() == 0 {
            acc
        } else {
            set_entry(acc, key, if k < j { trimmed(s, k + 1, j) } else { utf8("true"@) })
        };
        if j < i || j > end {
            acc
        } else {
            options_from(s, j + 1, end, next)
        }
    }
}

/// The options of the group that opens before `a` and closes at `b`.
pub open spec fn options_in(s: Seq<u8>, a: int, b: int) -> Seq<(Seq<u8>, Seq<u8>)> {
    options_from(s, a, b, seq![])
}

/// The UTF-8 bytes of each key and value.
pub open spec fn option_pairs(os: Seq<(String, String)>) -> Seq<(Seq<u8>, Seq<u8>)> {
    Seq::new(os.len(), |k: int| (utf8(os[k].0@), utf8(os[k].1@)))
}

/// The closing `]` of the option group that opens at `i`, if `s[i]` is `[`
/// and a `]` follows.
pub open spec fn bracket_at(s: Seq<u8>, i: int) -> Option<int> {
    if 0 <= i < s.len() && s[i] == 0x5b && run_end(s, i + 1, Class::InBracket) < s.len() {
        Some(run_end(s, i + 1, Class::InBracket))
    } else {
        None
    }
}

/// A command whose name ends at `ne` is written `\cmd[argument][options]`:
/// two option groups follow the name, the first non-empty and free of
/// markup, and no `{` follows them.
pub open spec fn context_form(s: Seq<u8>, ne: int) -> bool {
    &&& bracket_at(s, ne) is Some
    &&& bracket_at(s, bracket_at(s, ne)->Some_0 + 1) is Some
    &&& bracket_at(s, ne)->Some_0 > ne + 1
    &&& run_end(s, ne + 1, Class::Plain) >= bracket_at(s, ne)->Some_0
    &&& !(bracket_at(s, bracket_at(s, ne)->Some_0 + 1)->Some_0 + 1 < s.len()
        && s[bracket_at(s, bracket_at(s, ne)->Some_0 + 1)->Some_0 + 1] == 0x7b)
}

/// The options of the consecutive option groups from `i` on, added to
/// `acc` group by group (a later value for a key replacing an earlier one),
/// and where what follows them starts.
pub open spec fn option_groups(s: Seq<u8>, i: int, acc: Seq<(Seq<u8>, Seq<u8>)>) -> (Seq<(Seq<u8>, Seq<u8>)>, int)
    decreases s.len() - i,
{
    match bracket_at(s, i) {
        Some(k) => if k < i || k >= s.len() {
            (acc, i)
        } else {
            option_groups(s, k + 1, options_from(s, i + 1, k, acc))
        },
        None => (acc, i),
    }
}

/// Where the argument of a TeX-style command whose name ends at `e` starts:
/// after the option groups that follow the name.
pub open spec fn after_options(s: Seq<u8>, e: int) -> int {
    option_groups(s, e, seq![]).1
}

/// The nodes `ns` fill the brace group that opens at `g`, up to its `}`.
pub open spec fn fills_group(s: Seq<u8>, ns: Seq<ConTeXtNode>, g: int) -> bool {
    if ns.len() == 0 {
        g + 1 < s.len() && s[g + 1] == 0x7d
    } else {
        &&& span_of(ns.last()) is Some
        &&& tiled(ns, g + 1, span_of(ns.last())->Some_0.end as int)
        &&& span_of(ns.last())->Some_0.end < s.len()
        &&& s[span_of(ns.last())->Some_0.end as int] == 0x7d
    }
}

/// The arguments of a command of explicit style: the contents of the brace
/// group at `g`, if there is one there, else none.
pub open spec fn explicit_arguments(s: Seq<u8>, ns: Seq<ConTeXtNode>, g: int) -> bool {
    if 0 <= g < s.len() && s[g] == 0x7b {
        fills_group(s, ns, g)
    } else {
        ns.len() == 0
    }
}

/// The argument of a line-ending command: the rest of the line from `g`,
/// up to any `\`, `%`, `{` or `}`, without surrounding white space, as one
/// text node; none if that is empty.
pub open spec fn line_argument(s: Seq<u8>, ns: Seq<ConTeXtNode>, g: int) -> bool {
    let le = run_end(s, g, Class::PlainInLine);
    let x = trim_start(s, g, le);
    let y = trim_end(s, x, le);
    if x < y {
        ns.len() == 1 && ns[0] is Text && span_of(ns[0]) == Some(span_at(s, x, y))
    } else {
        ns.len() == 0
    }
}

/// What every node that the parser returns for source `s` satisfies.
pub open spec fn node_ok(s: Seq<u8>, n: ConTeXtNode) -> bool
    decreases n,
{
    match n {
        ConTeXtNode::Document { preamble, body } => nodes_ok(s, preamble@) && nodes_ok(s, body@),
        ConTeXtNode::Text { content, span } => {
            &&& span == span_at(s, span.start as int, span.end as int)
            &&& is_cut(s, span.start as int) && is_cut(s, span.end as int)
            &&& span.start < span.end <= s.len()
            &&& utf8(content@) == s.subrange(span.start as int, span.end as int)
            &&& forall|j: int| span.start <= j < span.end ==> !is_markup(#[trigger] s[j])
        },
        ConTeXtNode::Comment { content, span } => {
            &&& span == span_at(s, span.start as int, span.end as int)
            &&& is_cut(s, span.start as int) && is_cut(s, span.end as int)
            &&& span.start < span.end <= s.len()
            &&& s[span.start as int] == 0x25
            &&& span.end == run_end(s, span.start + 1, Class::InLine)
            &&& utf8(content@) == trimmed(s, span.start + 1, span.end as int)
        },
        ConTeXtNode::Command { name, style, arg_style, options, arguments, span } => {
            let e = span.start + 1 + utf8(name@).len();
            &&& span == span_at(s, span.start as int, span.end as int)
            &&& is_cut(s, span.start as int) && is_cut(s, span.end as int)
            &&& span.start < e <= span.end <= s.len()
            &&& s[span.start as int] == 0x5c
            &&& utf8(name@) == s.subrange(span.start + 1, e)
            &&& e == run_end(s, span.start + 1, Class::Letter)
            &&& !(e - span.start > 6 && has_at(s, span.start as int, crate::lexer::kw_start()))
            &&& (style == CommandStyle::ContextStyle) == context_form(s, e)
            &&& (style == CommandStyle::ContextStyle ==> {
                let k1 = bracket_at(s, e)->Some_0;
                let k2 = bracket_at(s, k1 + 1)->Some_0;
                &&& arguments@.len() == 1
                &&& arguments@[0] is Text
                &&& span_of(arguments@[0]) == Some(span_at(s, e + 1, k1))
                &&& span.end == k2 + 1
            })
            &&& (style == CommandStyle::ContextStyle ==> arg_style == ArgumentStyle::Explicit)
            &&& (style == CommandStyle::ContextStyle ==> option_pairs(options@) == options_in(
                s,
                bracket_at(s, e)->Some_0 + 2,
                bracket_at(s, bracket_at(s, e)->Some_0 + 1)->Some_0,
            ))
            &&& (style == CommandStyle::TexStyle ==> arg_style == table_style(name@))
            &&& (style == CommandStyle::TexStyle && arg_style != ArgumentStyle::GroupScoped && bracket_at(s, e) is Some
                ==> option_pairs(options@) == option_groups(s, e, seq![]).0)
            &&& (arg_style == ArgumentStyle::GroupScoped ==> options@.len() == 0)
            &&& (arg_style == ArgumentStyle::LineEnding && bracket_at(s, e) is None ==> options@.len() == 0)
            &&& (style == CommandStyle::TexStyle && arg_style == ArgumentStyle::Explicit ==> explicit_arguments(
                s,
                arguments@,
                after_options(s, e),
            ))
            &&& (arg_style == ArgumentStyle::LineEnding ==> line_argument(s, arguments@, after_options(s, e)))
            &&& unique_keys(options@)
            &&& nodes_ok(s, arguments@)
            &&& ordered(arguments@, e, span.end as int)
        },
        ConTeXtNode::StartStop { name, options, content, span } => {
            let e = span.start + 6 + utf8(name@).len();
            &&& span == span_at(s, span.start as int, span.end as int)
            &&& is_cut(s, span.start as int) && is_cut(s, span.end as int)
            &&& span.start < e <= span.end <= s.len()
            &&& s.subrange(span.start as int, span.start + 6) == crate::lexer::kw_start()
            &&& utf8(name@) == s.subrange(span.start + 6, e)
            &&& utf8(name@).len() > 0
            &&& e == run_end(s, span.start + 6, Class::Letter)
            &&& span.end - 5 - utf8(name@).len() >= e
            &&& s.subrange(span.end - 5 - utf8(name@).len(), span.end as int) == crate::lexer::kw_stop() + utf8(name@)
            &&& unique_keys(options@)
            &&& (bracket_at(s, e) is Some ==> option_pairs(options@) == options_in(s, e + 1, bracket_at(s, e)->Some_0))
            &&& (bracket_at(s, e) is None ==> options@.len() == 0)
            &&& nodes_ok(s, content@)
            &&& tiled_from(content@, e, span.end - 5 - utf8(name@).len())
        },
    }
}

pub open spec fn nodes_ok(s: Seq<u8>, ns: Seq<ConTeXtNode>) -> bool
    decreases ns,
{
    if ns.len() == 0 {
        true
    } else {
        nodes_ok(s, ns.drop_last()) && node_ok(s, ns.last())
    }
}

/// No key occurs twice.
pub open spec fn unique_keys(os: Seq<(String, String)>) -> bool {
    forall|a: int, b: int| 0 <= a < b < os.len() ==> (#[trigger] os[a]).0@ != (#[trigger] os[b]).0@
}

} // verus!
