//! The TGF codec: parsing a text buffer into a graph and serializing a
//! graph (after compaction) back to text.
//!
//! A document is split at the single `#` character into a vertex section
//! and an edge section. Vertex lines read `<id> <optional label>`; an
//! absent label stays absent. Edge lines read `<from> <to> <optional
//! label>`; an absent label becomes the empty string. Serialization first
//! compacts the ids, then emits vertices sorted by id and edges sorted by
//! (from, to), one line per parallel edge label.

use vstd::prelude::*;
use vstd::string::StrSliceExecFns;
use vstd::string::StringExecFns;

use crate::graph::Graph;
use crate::graph::GraphModel;
use crate::graph::GroupModel;
use crate::graph::VertexModel;

verus! {

/// The decimal digit for a value below ten.
pub open spec fn digit_char(d: int) -> char {
    if d == 0 {
        '0'
    } else if d == 1 {
        '1'
    } else if d == 2 {
        '2'
    } else if d == 3 {
        '3'
    } else if d == 4 {
        '4'
    } else if d == 5 {
        '5'
    } else if d == 6 {
        '6'
    } else if d == 7 {
        '7'
    } else if d == 8 {
        '8'
    } else {
        '9'
    }
}

/// The usual base-10 rendering of a non-negative integer, most
/// significant digit first, with no leading zeros (zero renders as "0").
pub open spec fn dec_seq(n: int) -> Seq<char>
    decreases n,
{
    if n < 10 {
        seq![digit_char(n)]
    } else {
        dec_seq(n / 10).push(digit_char(n % 10))
    }
}

/// A vertex label as it is written: the text, or nothing when absent.
pub open spec fn render_label(l: Option<String>) -> Seq<char> {
    match l {
        Some(s) => s@,
        None => Seq::empty(),
    }
}

/// One vertex line: `<id> <label-or-empty>` and a newline.
pub open spec fn render_vertex_line(v: VertexModel<String, String>) -> Seq<char> {
    dec_seq(v.id) + seq![' '] + render_label(v.label) + seq!['\n']
}

/// The vertex section: one line per vertex, in storage order.
pub open spec fn render_verts(vs: Seq<VertexModel<String, String>>) -> Seq<char>
    decreases vs.len(),
{
    if vs.len() == 0 {
        Seq::empty()
    } else {
        render_verts(vs.drop_last()) + render_vertex_line(vs.last())
    }
}

/// One edge line: `<from> <to> <label-or-empty>` and a newline.
pub open spec fn render_edge_line(from: int, to: int, l: Option<String>) -> Seq<char> {
    dec_seq(from) + seq![' '] + dec_seq(to) + seq![' '] + render_label(l) + seq!['\n']
}

/// All lines of one edge group: one line per parallel label, in list order.
pub open spec fn render_group(from: int, to: int, ls: Seq<Option<String>>) -> Seq<char>
    decreases ls.len(),
{
    if ls.len() == 0 {
        Seq::empty()
    } else {
        render_group(from, to, ls.drop_last()) + render_edge_line(from, to, ls.last())
    }
}

/// All lines of one vertex's outgoing groups, in target order.
pub open spec fn render_groups(from: int, ts: Seq<GroupModel<String>>) -> Seq<char>
    decreases ts.len(),
{
    if ts.len() == 0 {
        Seq::empty()
    } else {
        render_groups(from, ts.drop_last()) + render_group(
            from,
            ts.last().to,
            ts.last().labels,
        )
    }
}

/// The edge section: every vertex's groups, in storage order.
pub open spec fn render_edges(vs: Seq<VertexModel<String, String>>) -> Seq<char>
    decreases vs.len(),
{
    if vs.len() == 0 {
        Seq::empty()
    } else {
        render_edges(vs.drop_last()) + render_groups(vs.last().id, vs.last().targets)
    }
}

/// The whole document: vertex section, the `#` line, edge section.
pub open spec fn render(g: GraphModel<String, String>) -> Seq<char> {
    render_verts(g.verts) + seq!['#', '\n'] + render_edges(g.verts)
}

/// Relies on String::push: appends the character to the end of the string.
#[verifier::external_body]
fn push_char(s: &mut String, c: char)
    ensures
        final(s)@ == old(s)@.push(c),
{
    s.push(c);
}

/// Appends the base-10 rendering of `n`.
fn push_usize(out: &mut String, n: usize)
    ensures
        final(out)@ == old(out)@ + dec_seq(n as int),
    decreases n,
{
    if n >= 10 {
        push_usize(out, n / 10);
    }
    let d = n % 10;
    let c = if d == 0 {
        '0'
    } else if d == 1 {
        '1'
    } else if d == 2 {
        '2'
    } else if d == 3 {
        '3'
    } else if d == 4 {
        '4'
    } else if d == 5 {
        '5'
    } else if d == 6 {
        '6'
    } else if d == 7 {
        '7'
    } else if d == 8 {
        '8'
    } else {
        '9'
    };
    proof {
        assert(c == digit_char(n as int % 10));
    }
    push_char(out, c);
    proof {
        if n < 10 {
            assert(dec_seq(n as int) =~= seq![digit_char(n as int)]);
            assert(final(out)@ =~= old(out)@ + dec_seq(n as int));
        } else {
            assert(dec_seq(n as int) == dec_seq(n as int / 10).push(digit_char(n as int % 10)));
            assert(final(out)@ =~= old(out)@ + dec_seq(n as int));
        }
    }
}

impl Graph<String, String> {
    /// Compacts the graph (a deliberate side effect: ids change), then
    /// renders it: vertices ascending by new id, the `#` line, and edges
    /// ascending by (from, to) with every parallel label on its own line.
    pub fn serialize_to_tgf(&mut self) -> (r: String)
        requires
            crate::graph::wf(old(self)@),
        ensures
            crate::graph::wf(final(self)@),
            final(self)@ =~~= crate::graph::fit_model(old(self)@),
            r@ == render(final(self)@),
    {
        self.fit();
        let ghost gv = self@;
        let mut out = String::new();
        let n = self.vertices.len();
        let mut i: usize = 0;
        while i < n
            invariant
                self@ == gv,
                crate::graph::wf(gv),
                n == gv.verts.len(),
                i <= n,
                out@ == render_verts(gv.verts.take(i as int)),
            decreases n - i,
        {
            let ghost pre = out@;
            push_usize(&mut out, self.vertices[i].id);
            push_char(&mut out, ' ');
            match &self.vertices[i].label {
                Some(l) => {
                    out.append(l.as_str());
                },
                None => {},
            }
            push_char(&mut out, '\n');
            proof {
                let vs = gv.verts.take(i as int + 1);
                assert(vs.drop_last() =~= gv.verts.take(i as int));
                assert(vs.last() == gv.verts[i as int]);
                assert(out@ =~= pre + render_vertex_line(gv.verts[i as int]));
                assert(out@ == render_verts(gv.verts.take(i as int + 1)));
            }
            i = i + 1;
        }
        proof {
            assert(gv.verts.take(n as int) =~= gv.verts);
        }
        push_char(&mut out, '#');
        push_char(&mut out, '\n');
        proof {
            assert(out@ =~= render_verts(gv.verts) + seq!['#', '\n']);
        }
        let ghost head = out@;
        let mut i: usize = 0;
        while i < n
            invariant
                self@ == gv,
                crate::graph::wf(gv),
                n == gv.verts.len(),
                i <= n,
                out@ == head + render_edges(gv.verts.take(i as int)),
                head == render_verts(gv.verts) + seq!['#', '\n'],
            decreases n - i,
        {
            let ghost v = gv.verts[i as int];
            let from = self.vertices[i].id;
            let tn = self.vertices[i].targets.len();
            let mut j: usize = 0;
            let ghost vhead = out@;
            while j < tn
                invariant
                    self@ == gv,
                    crate::graph::wf(gv),
                    i < n,
                    n == gv.verts.len(),
                    v == gv.verts[i as int],
                    from == v.id,
                    tn == v.targets.len(),
                    j <= tn,
                    out@ == vhead + render_groups(v.id, v.targets.take(j as int)),
                decreases tn - j,
            {
                let to = self.vertices[i].targets[j].to;
                let ln = self.vertices[i].targets[j].labels.len();
                let mut k: usize = 0;
                let ghost ghead = out@;
                let ghost ls = v.targets[j as int].labels;
                while k < ln
                    invariant
                        self@ == gv,
                        i < n,
                        j < tn,
                        n == gv.verts.len(),
                        v == gv.verts[i as int],
                        tn == v.targets.len(),
                        from == v.id,
                        to == v.targets[j as int].to,
                        ls == v.targets[j as int].labels,
                        ln == ls.len(),
                        k <= ln,
                        out@ == ghead + render_group(v.id, v.targets[j as int].to, ls.take(
                            k as int,
                        )),
                    decreases ln - k,
                {
                    let ghost pre = out@;
                    push_usize(&mut out, from);
                    push_char(&mut out, ' ');
                    push_usize(&mut out, to);
                    push_char(&mut out, ' ');
                    match &self.vertices[i].targets[j].labels[k] {
                        Some(l) => {
                            out.append(l.as_str());
                        },
                        None => {},
                    }
                    push_char(&mut out, '\n');
                    proof {
                        let t = ls.take(k as int + 1);
                        assert(t.drop_last() =~= ls.take(k as int));
                        assert(t.last() == ls[k as int]);
                        assert(out@ =~= pre + render_edge_line(v.id, to as int, ls[k as int]));
                        assert(out@ == ghead + render_group(v.id, to as int, ls.take(
                            k as int + 1,
                        )));
                    }
                    k = k + 1;
                }
                proof {
                    let ts = v.targets.take(j as int + 1);
                    assert(ts.drop_last() =~= v.targets.take(j as int));
                    assert(ts.last() == v.targets[j as int]);
                    assert(ls.take(ln as int) =~= ls);
                    assert(out@ == vhead + render_groups(v.id, v.targets.take(j as int + 1)));
                }
                j = j + 1;
            }
            proof {
                let vs = gv.verts.take(i as int + 1);
                assert(vs.drop_last() =~= gv.verts.take(i as int));
                assert(vs.last() == gv.verts[i as int]);
                assert(v.targets.take(tn as int) =~= v.targets);
                assert(out@ == head + render_edges(gv.verts.take(i as int + 1)));
            }
            i = i + 1;
        }
        proof {
            assert(gv.verts.take(n as int) =~= gv.verts);
            assert(out@ == render(gv));
        }
        out
    }
}

/// Ids survive the wire: the decimal rendering of a non-negative number
/// is a well-formed id token that parses back to the same number.
pub proof fn lemma_dec_round_trip(n: int)
    requires
        0 <= n <= usize::MAX,
    ensures
        tok_ok(dec_seq(n)),
        dec_val(dec_seq(n)) == n,
    decreases n,
{
    lemma_dec_digits(n);
    if n < 10 {
        assert(dec_seq(n) =~= seq![digit_char(n)]);
        assert(dec_seq(n).drop_last() =~= Seq::<char>::empty());
        assert(dec_seq(n).last() == digit_char(n));
        assert(digit_val(digit_char(n)) == n);
        assert(dec_val(dec_seq(n)) == dec_val(Seq::<char>::empty()) * 10 + digit_val(
            digit_char(n),
        ));
    } else {
        lemma_dec_round_trip(n / 10);
        assert(dec_seq(n).drop_last() =~= dec_seq(n / 10));
        assert(dec_seq(n).last() == digit_char(n % 10));
        assert(digit_val(digit_char(n % 10)) == n % 10);
        assert(dec_val(dec_seq(n)) == dec_val(dec_seq(n / 10)) * 10 + digit_val(
            digit_char(n % 10),
        ));
        assert(dec_val(dec_seq(n)) == (n / 10) * 10 + n % 10);
    }
}

/// Every character the decimal rendering emits is a digit, and the
/// rendering is never empty.
proof fn lemma_dec_digits(n: int)
    requires
        n >= 0,
    ensures
        dec_seq(n).len() > 0,
        forall|i: int| 0 <= i < dec_seq(n).len() ==> digit_val(#[trigger] dec_seq(n)[i]) >= 0,
    decreases n,
{
    if n < 10 {
        assert(dec_seq(n) =~= seq![digit_char(n)]);
        assert(digit_val(dec_seq(n)[0]) >= 0);
    } else {
        lemma_dec_digits(n / 10);
        assert forall|i: int| 0 <= i < dec_seq(n).len() implies digit_val(
            #[trigger] dec_seq(n)[i],
        ) >= 0 by {
            if i < dec_seq(n).len() - 1 {
                assert(dec_seq(n)[i] == dec_seq(n / 10)[i]);
            } else {
                assert(dec_seq(n)[i] == digit_char(n % 10));
            }
        }
    }
}

/// A run of leading non-whitespace shifts the first-whitespace index
/// past itself.
proof fn lemma_first_ws_concat(a: Seq<char>, b: Seq<char>)
    requires
        forall|i: int| 0 <= i < a.len() ==> !is_space(#[trigger] a[i]),
    ensures
        first_ws(a + b) == a.len() + first_ws(b),
    decreases a.len(),
{
    if a.len() == 0 {
        assert(a + b =~= b);
    } else {
        assert((a + b)[0] == a[0]);
        assert((a + b).drop_first() =~= a.drop_first() + b);
        assert(forall|i: int|
            0 <= i < a.drop_first().len() ==> !is_space(#[trigger] a.drop_first()[i]));
        lemma_first_ws_concat(a.drop_first(), b);
    }
}

/// Text that begins with something other than whitespace keeps its front.
proof fn lemma_trim_front_id(s: Seq<char>)
    requires
        s.len() == 0 || !is_space(s[0]),
    ensures
        trim_front(s) == s,
{
}

/// The whitespace the tokenizer recognizes.
pub open spec fn is_space(c: char) -> bool {
    c == ' ' || c == '\t' || c == '\r'
}

/// The value of a decimal digit character, or a negative number for any
/// other character.
pub open spec fn digit_val(c: char) -> int {
    if c == '0' {
        0
    } else if c == '1' {
        1
    } else if c == '2' {
        2
    } else if c == '3' {
        3
    } else if c == '4' {
        4
    } else if c == '5' {
        5
    } else if c == '6' {
        6
    } else if c == '7' {
        7
    } else if c == '8' {
        8
    } else if c == '9' {
        9
    } else {
        -1
    }
}

/// A well-formed id token: non-empty, digits only, and within the
/// machine's id range.
pub open spec fn tok_ok(s: Seq<char>) -> bool {
    &&& s.len() > 0
    &&& forall|i: int| 0 <= i < s.len() ==> digit_val(#[trigger] s[i]) >= 0
    &&& dec_val(s) <= usize::MAX
}

/// The number a digit sequence denotes, most significant digit first.
pub open spec fn dec_val(s: Seq<char>) -> int
    decreases s.len(),
{
    if s.len() == 0 {
        0
    } else {
        dec_val(s.drop_last()) * 10 + digit_val(s.last())
    }
}

/// How many times `c` occurs in `s`.
pub open spec fn occ(s: Seq<char>, c: char) -> int
    decreases s.len(),
{
    if s.len() == 0 {
        0
    } else {
        occ(s.drop_last(), c) + if s.last() == c {
            1int
        } else {
            0int
        }
    }
}

/// A count of zero means no position holds the character.
pub proof fn lemma_occ_zero(s: Seq<char>, c: char)
    ensures
        occ(s, c) >= 0,
        occ(s, c) == 0 <==> (forall|i: int| 0 <= i < s.len() ==> s[i] != c),
    decreases s.len(),
{
    if s.len() > 0 {
        lemma_occ_zero(s.drop_last(), c);
        if occ(s, c) == 0 {
            assert forall|i: int| 0 <= i < s.len() implies s[i] != c by {
                if i < s.len() - 1 {
                    assert(s.drop_last()[i] == s[i]);
                }
            }
        }
        if forall|i: int| 0 <= i < s.len() ==> s[i] != c {
            assert(forall|i: int|
                0 <= i < s.drop_last().len() ==> #[trigger] s.drop_last()[i] == s[i]);
        }
    }
}

/// Occurrence counts add over concatenation.
pub proof fn lemma_occ_add(a: Seq<char>, b: Seq<char>, c: char)
    ensures
        occ(a + b, c) == occ(a, c) + occ(b, c),
    decreases b.len(),
{
    if b.len() == 0 {
        assert(a + b =~= a);
    } else {
        lemma_occ_add(a, b.drop_last(), c);
        assert((a + b).drop_last() =~= a + b.drop_last());
        assert((a + b).last() == b.last());
    }
}

/// The position of the single `#` of a document holding exactly one.
pub open spec fn hash_pos(s: Seq<char>) -> int {
    choose|h: int| 0 <= h < s.len() && s[h] == '#' && (forall|k: int| 0 <= k < h ==> s[k] != '#')
}

/// The index of the first whitespace character, or the length.
pub open spec fn first_ws(s: Seq<char>) -> int
    decreases s.len(),
{
    if s.len() == 0 {
        0
    } else if is_space(s[0]) {
        0
    } else {
        1 + first_ws(s.drop_first())
    }
}

/// Where the first whitespace stands.
pub proof fn lemma_first_ws(s: Seq<char>)
    ensures
        0 <= first_ws(s) <= s.len(),
        first_ws(s) < s.len() ==> is_space(s[first_ws(s)]),
        forall|k: int| 0 <= k < first_ws(s) ==> !is_space(#[trigger] s[k]),
    decreases s.len(),
{
    if s.len() > 0 && !is_space(s[0]) {
        lemma_first_ws(s.drop_first());
        assert forall|k: int| 0 <= k < first_ws(s) implies !is_space(#[trigger] s[k]) by {
            if k > 0 {
                assert(s.drop_first()[k - 1] == s[k]);
            }
        }
    }
}


/// The index of the first newline, or the length.
pub open spec fn nl_pos(s: Seq<char>) -> int
    decreases s.len(),
{
    if s.len() == 0 {
        0
    } else if s[0] == '\n' {
        0
    } else {
        1 + nl_pos(s.drop_first())
    }
}

/// Where the first newline stands: within bounds, on a newline when one
/// exists, with none before it.
pub proof fn lemma_nl_pos(s: Seq<char>)
    ensures
        0 <= nl_pos(s) <= s.len(),
        nl_pos(s) < s.len() ==> s[nl_pos(s)] == '\n',
        forall|k: int| 0 <= k < nl_pos(s) ==> #[trigger] s[k] != '\n',
    decreases s.len(),
{
    if s.len() > 0 && s[0] != '\n' {
        lemma_nl_pos(s.drop_first());
        assert forall|k: int| 0 <= k < nl_pos(s) implies #[trigger] s[k] != '\n' by {
            if k > 0 {
                assert(s.drop_first()[k - 1] == s[k]);
            }
        }
    }
}

/// The text with leading whitespace removed.
pub open spec fn trim_front(s: Seq<char>) -> Seq<char>
    decreases s.len(),
{
    if s.len() > 0 && is_space(s[0]) {
        trim_front(s.drop_first())
    } else {
        s
    }
}

/// The text with trailing whitespace removed.
pub open spec fn trim_back(s: Seq<char>) -> Seq<char>
    decreases s.len(),
{
    if s.len() > 0 && is_space(s.last()) {
        trim_back(s.drop_last())
    } else {
        s
    }
}

/// The text with leading and trailing whitespace removed.
pub open spec fn trim_spec(s: Seq<char>) -> Seq<char> {
    trim_front(trim_back(s))
}

/// What one vertex line holds.
pub enum VLine {
    Blank,
    Bad,
    Rec { vid: int, vlabel: Option<Seq<char>> },
}

/// What one edge line holds.
pub enum ELine {
    Blank,
    Bad,
    Rec { efrom: int, eto: int, elabel: Seq<char> },
}

/// Reading one vertex line: trim it; blank lines carry nothing; the first
/// whitespace run separates the id token from the label; a missing label
/// is the absent value; a bad id token is fatal.
pub open spec fn parse_vline(line: Seq<char>) -> VLine {
    let t = trim_spec(line);
    if t.len() == 0 {
        VLine::Blank
    } else {
        let w = first_ws(t);
        let tok = t.take(w);
        let rest = trim_front(t.skip(w));
        if !tok_ok(tok) {
            VLine::Bad
        } else {
            VLine::Rec {
                vid: dec_val(tok),
                vlabel: if rest.len() == 0 {
                    None
                } else {
                    Some(rest)
                },
            }
        }
    }
}

/// Reading one edge line: as a vertex line, but with two id tokens, and a
/// missing label becomes the empty string.
pub open spec fn parse_eline(line: Seq<char>) -> ELine {
    let t = trim_spec(line);
    if t.len() == 0 {
        ELine::Blank
    } else {
        let w1 = first_ws(t);
        let tok1 = t.take(w1);
        let r1 = trim_front(t.skip(w1));
        let w2 = first_ws(r1);
        let tok2 = r1.take(w2);
        let rest = trim_front(r1.skip(w2));
        if !tok_ok(tok1) || !tok_ok(tok2) {
            ELine::Bad
        } else {
            ELine::Rec { efrom: dec_val(tok1), eto: dec_val(tok2), elabel: rest }
        }
    }
}

/// The vertex records of the vertex section, line by line; `None` when
/// some line is fatal.
pub open spec fn vrecs(s: Seq<char>) -> Option<Seq<(int, Option<Seq<char>>)>>
    decreases s.len(),
    when s.len() >= 0
    via vrecs_dec
{
    if s.len() == 0 {
        Some(Seq::empty())
    } else {
        let e = nl_pos(s);
        let line = s.take(e);
        let rest = if e < s.len() {
            s.skip(e + 1)
        } else {
            Seq::empty()
        };
        match (parse_vline(line), vrecs(rest)) {
            (VLine::Bad, _) => None,
            (_, None) => None,
            (VLine::Blank, Some(r)) => Some(r),
            (VLine::Rec { vid, vlabel }, Some(r)) => Some(seq![(vid, vlabel)] + r),
        }
    }
}

#[via_fn]
proof fn vrecs_dec(s: Seq<char>) {
    lemma_nl_pos(s);
}

/// The edge records of the edge section, line by line; `None` when some
/// line is fatal.
pub open spec fn erecs(s: Seq<char>) -> Option<Seq<(int, int, Seq<char>)>>
    decreases s.len(),
    when s.len() >= 0
    via erecs_dec
{
    if s.len() == 0 {
        Some(Seq::empty())
    } else {
        let e = nl_pos(s);
        let line = s.take(e);
        let rest = if e < s.len() {
            s.skip(e + 1)
        } else {
            Seq::empty()
        };
        match (parse_eline(line), erecs(rest)) {
            (ELine::Bad, _) => None,
            (_, None) => None,
            (ELine::Blank, Some(r)) => Some(r),
            (ELine::Rec { efrom, eto, elabel }, Some(r)) => Some(seq![(efrom, eto, elabel)] + r),
        }
    }
}

#[via_fn]
proof fn erecs_dec(s: Seq<char>) {
    lemma_nl_pos(s);
}

/// Whether some vertex record carries the id `y`.
pub open spec fn has_vrec(vr: Seq<(int, Option<Seq<char>>)>, y: int) -> bool {
    exists|k: int| 0 <= k < vr.len() && vr[k].0 == y
}

/// The label of the last vertex record with id `y` (records later in the
/// document override earlier ones).
pub open spec fn vlabel_in(vr: Seq<(int, Option<Seq<char>>)>, y: int) -> Option<Seq<char>>
    decreases vr.len(),
{
    if vr.len() == 0 {
        None
    } else if vr.last().0 == y {
        vr.last().1
    } else {
        vlabel_in(vr.drop_last(), y)
    }
}

/// The largest vertex id among the records, or zero without any.
pub open spec fn max_vid(vr: Seq<(int, Option<Seq<char>>)>) -> int
    decreases vr.len(),
{
    if vr.len() == 0 {
        0
    } else if vr.last().0 > max_vid(vr.drop_last()) {
        vr.last().0
    } else {
        max_vid(vr.drop_last())
    }
}

/// One optional label seen as text.
pub open spec fn eview_one(l: Option<String>) -> Option<Seq<char>> {
    match l {
        Some(t) => Some(t@),
        None => None,
    }
}

/// A label list seen as text: each entry's character sequence.
pub open spec fn eview(s: Seq<Option<String>>) -> Seq<Option<Seq<char>>> {
    s.map_values(
        |l: Option<String>|
            match l {
                Some(t) => Some(t@),
                None => None::<Seq<char>>,
            },
    )
}

/// The labels of all edge records for the ordered pair `(a, b)`, in
/// document order.
pub open spec fn epairs(er: Seq<(int, int, Seq<char>)>, a: int, b: int) -> Seq<
    Option<Seq<char>>,
> {
    er.filter(|e: (int, int, Seq<char>)| e.0 == a && e.1 == b).map_values(
        |e: (int, int, Seq<char>)| Some(e.2),
    )
}

/// The errors parsing can report: a delimiter count other than one, or an
/// id token that is not a machine-sized non-negative integer.
#[derive(Clone, Copy, PartialEq, Eq, Structural, Debug)]
pub enum TgfError {
    Delimiter,
    BadId,
}

/// The characters of a text, in order.
fn to_chars(s: &str) -> (r: Vec<char>)
    ensures
        r@ == s@,
{
    let n = s.unicode_len();
    let mut r: Vec<char> = Vec::new();
    let mut i: usize = 0;
    while i < n
        invariant
            n == s@.len(),
            i <= n,
            r@ =~= s@.take(i as int),
        decreases n - i,
    {
        r.push(s.get_char(i));
        proof {
            assert(r@ =~= s@.take(i as int + 1));
        }
        i = i + 1;
    }
    proof {
        assert(s@.take(n as int) =~= s@);
    }
    r
}

/// The characters of the range `[a, b)`.
fn sub_chars(cs: &Vec<char>, a: usize, b: usize) -> (r: Vec<char>)
    requires
        a <= b <= cs@.len(),
    ensures
        r@ == cs@.subrange(a as int, b as int),
{
    let mut r: Vec<char> = Vec::new();
    let mut i: usize = a;
    while i < b
        invariant
            a <= i <= b <= cs@.len(),
            r@ =~= cs@.subrange(a as int, i as int),
        decreases b - i,
    {
        r.push(cs[i]);
        proof {
            assert(r@ =~= cs@.subrange(a as int, i as int + 1));
        }
        i = i + 1;
    }
    r
}

/// Whether the tokenizer treats the character as whitespace.
fn is_space_x(c: char) -> (r: bool)
    ensures
        r == is_space(c),
{
    c == ' ' || c == '\t' || c == '\r'
}

/// The line with its leading and trailing whitespace removed.
fn trim_chars(cs: &Vec<char>) -> (r: Vec<char>)
    ensures
        r@ == trim_spec(cs@),
{
    let mut e = cs.len();
    proof {
        assert(cs@.take(cs@.len() as int) =~= cs@);
    }
    while e > 0 && is_space_x(cs[e - 1])
        invariant
            e <= cs@.len(),
            trim_back(cs@) == trim_back(cs@.take(e as int)),
        decreases e,
    {
        proof {
            let t = cs@.take(e as int);
            assert(t.drop_last() =~= cs@.take(e as int - 1));
        }
        e = e - 1;
    }
    proof {
        assert(trim_back(cs@) == cs@.take(e as int));
    }
    let mut f: usize = 0;
    proof {
        assert(cs@.take(e as int).skip(0) =~= cs@.take(e as int));
    }
    while f < e && is_space_x(cs[f])
        invariant
            f <= e <= cs@.len(),
            trim_back(cs@) == cs@.take(e as int),
            trim_front(cs@.take(e as int)) == trim_front(cs@.take(e as int).skip(f as int)),
        decreases e - f,
    {
        proof {
            let t = cs@.take(e as int).skip(f as int);
            assert(t[0] == cs@[f as int]);
            assert(t.drop_first() =~= cs@.take(e as int).skip(f as int + 1));
        }
        f = f + 1;
    }
    proof {
        let t = cs@.take(e as int).skip(f as int);
        if t.len() > 0 {
            assert(t[0] == cs@[f as int]);
        }
        assert(trim_front(t) == t);
        assert(cs@.take(e as int).skip(f as int) =~= cs@.subrange(f as int, e as int));
    }
    sub_chars(cs, f, e)
}

/// The index of the first whitespace character of the token text, or its
/// length.
fn first_ws_x(cs: &Vec<char>) -> (w: usize)
    ensures
        w as int == first_ws(cs@),
        w <= cs@.len(),
{
    let n = cs.len();
    let mut j: usize = 0;
    proof {
        assert(cs@.skip(0) =~= cs@);
    }
    while j < n && !is_space_x(cs[j])
        invariant
            j <= n,
            n == cs@.len(),
            first_ws(cs@) == j + first_ws(cs@.skip(j as int)),
        decreases n - j,
    {
        proof {
            let t = cs@.skip(j as int);
            assert(t[0] == cs@[j as int]);
            assert(t.drop_first() =~= cs@.skip(j as int + 1));
        }
        j = j + 1;
    }
    proof {
        let t = cs@.skip(j as int);
        if t.len() > 0 {
            assert(t[0] == cs@[j as int]);
        }
        assert(first_ws(t) == 0);
    }
    j
}

/// The value grows with the digits: a longer digit prefix never shrinks
/// the number.
proof fn lemma_dec_val_grows(s: Seq<char>, j: int)
    requires
        0 <= j <= s.len(),
        forall|i: int| 0 <= i < s.len() ==> digit_val(#[trigger] s[i]) >= 0,
    ensures
        dec_val(s) >= dec_val(s.take(j)),
        dec_val(s) >= 0,
    decreases s.len(),
{
    if s.len() == 0 {
    } else {
        assert(forall|i: int|
            0 <= i < s.drop_last().len() ==> digit_val(#[trigger] s.drop_last()[i]) >= 0);
        lemma_dec_val_grows(s.drop_last(), if j < s.len() { j } else { s.len() - 1 });
        if j == s.len() {
            assert(s.take(j) =~= s);
        } else {
            assert(s.drop_last().take(j) =~= s.take(j));
        }
    }
}

/// The number an id token denotes, or nothing when the token is empty,
/// holds a non-digit, or does not fit the id type.
fn parse_num(cs: &Vec<char>) -> (r: Option<usize>)
    ensures
        r is Some <==> tok_ok(cs@),
        r matches Some(v) ==> v as int == dec_val(cs@),
{
    let n = cs.len();
    if n == 0 {
        return None;
    }
    let mut acc: usize = 0;
    let mut i: usize = 0;
    while i < n
        invariant
            n == cs@.len(),
            i <= n,
            forall|k: int| 0 <= k < i ==> digit_val(#[trigger] cs@[k]) >= 0,
            acc as int == dec_val(cs@.take(i as int)),
        decreases n - i,
    {
        let c = cs[i];
        let d: usize = if c == '0' {
            0
        } else if c == '1' {
            1
        } else if c == '2' {
            2
        } else if c == '3' {
            3
        } else if c == '4' {
            4
        } else if c == '5' {
            5
        } else if c == '6' {
            6
        } else if c == '7' {
            7
        } else if c == '8' {
            8
        } else if c == '9' {
            9
        } else {
            return None;
        };
        proof {
            assert(d as int == digit_val(c));
        }
        let next = match acc.checked_mul(10) {
            Some(m) => match m.checked_add(d) {
                Some(a) => a,
                None => {
                    proof {
                        assert(dec_val(cs@.take(i as int + 1)) > usize::MAX) by {
                            assert(cs@.take(i as int + 1).drop_last() =~= cs@.take(i as int));
                            assert(cs@.take(i as int + 1).last() == c);
                        }
                        if forall|k: int| 0 <= k < cs@.len() ==> digit_val(#[trigger] cs@[k])
                            >= 0 {
                            lemma_dec_val_grows(cs@, i as int + 1);
                        }
                    }
                    return None;
                },
            },
            None => {
                proof {
                    assert(dec_val(cs@.take(i as int + 1)) > usize::MAX) by {
                        assert(cs@.take(i as int + 1).drop_last() =~= cs@.take(i as int));
                        assert(cs@.take(i as int + 1).last() == c);
                        assert(acc as int * 10 > usize::MAX);
                    }
                    if forall|k: int| 0 <= k < cs@.len() ==> digit_val(#[trigger] cs@[k]) >= 0 {
                        lemma_dec_val_grows(cs@, i as int + 1);
                    }
                }
                return None;
            },
        };
        proof {
            assert(cs@.take(i as int + 1).drop_last() =~= cs@.take(i as int));
            assert(cs@.take(i as int + 1).last() == c);
            assert(next as int == dec_val(cs@.take(i as int + 1)));
        }
        acc = next;
        i = i + 1;
    }
    proof {
        assert(cs@.take(n as int) =~= cs@);
        assert(tok_ok(cs@));
    }
    Some(acc)
}

/// The text holding exactly these characters.
fn chars_to_string(cs: &Vec<char>) -> (r: String)
    ensures
        r@ == cs@,
{
    let mut r = String::new();
    let n = cs.len();
    let mut i: usize = 0;
    while i < n
        invariant
            n == cs@.len(),
            i <= n,
            r@ =~= cs@.take(i as int),
        decreases n - i,
    {
        push_char(&mut r, cs[i]);
        proof {
            assert(r@ =~= cs@.take(i as int + 1));
        }
        i = i + 1;
    }
    proof {
        assert(cs@.take(n as int) =~= cs@);
    }
    r
}

/// The absolute index of the first newline at or after `start`.
fn find_nl(cs: &Vec<char>, start: usize) -> (e: usize)
    requires
        start <= cs@.len(),
    ensures
        start <= e <= cs@.len(),
        e as int - start as int == nl_pos(cs@.skip(start as int)),
        e < cs@.len() ==> cs@[e as int] == '\n',
{
    let n = cs.len();
    let mut j: usize = start;
    while j < n && cs[j] != '\n'
        invariant
            start <= j <= n,
            n == cs@.len(),
            nl_pos(cs@.skip(start as int)) == j - start + nl_pos(cs@.skip(j as int)),
        decreases n - j,
    {
        proof {
            let t = cs@.skip(j as int);
            assert(t[0] == cs@[j as int]);
            assert(t.drop_first() =~= cs@.skip(j as int + 1));
        }
        j = j + 1;
    }
    proof {
        let t = cs@.skip(j as int);
        if t.len() > 0 {
            assert(t[0] == cs@[j as int]);
        }
        assert(nl_pos(t) == 0);
    }
    j
}

/// The index of the first non-whitespace character at or after `start`.
fn skip_ws(cs: &Vec<char>, start: usize) -> (f: usize)
    requires
        start <= cs@.len(),
    ensures
        start <= f <= cs@.len(),
        trim_front(cs@.skip(start as int)) =~= cs@.skip(f as int),
{
    let n = cs.len();
    let mut j: usize = start;
    while j < n && is_space_x(cs[j])
        invariant
            start <= j <= n,
            n == cs@.len(),
            trim_front(cs@.skip(start as int)) == trim_front(cs@.skip(j as int)),
        decreases n - j,
    {
        proof {
            let t = cs@.skip(j as int);
            assert(t[0] == cs@[j as int]);
            assert(t.drop_first() =~= cs@.skip(j as int + 1));
        }
        j = j + 1;
    }
    proof {
        let t = cs@.skip(j as int);
        if t.len() > 0 {
            assert(t[0] == cs@[j as int]);
        }
        assert(trim_front(t) == t);
    }
    j
}

/// Appending one vertex record: the ids grow by the new one, the newest
/// label wins, and the maximum follows.
proof fn lemma_vrec_push(done: Seq<(int, Option<Seq<char>>)>, id: int, lab: Option<Seq<char>>)
    ensures
        forall|y: int| has_vrec(done.push((id, lab)), y) <==> (has_vrec(done, y) || y == id),
        vlabel_in(done.push((id, lab)), id) == lab,
        forall|y: int|
            y != id ==> #[trigger] vlabel_in(done.push((id, lab)), y) == vlabel_in(done, y),
        max_vid(done.push((id, lab))) == if id > max_vid(done) {
            id
        } else {
            max_vid(done)
        },
{
    let d2 = done.push((id, lab));
    assert(d2.drop_last() =~= done);
    assert(d2.last() == (id, lab));
    assert forall|y: int| has_vrec(d2, y) <==> (has_vrec(done, y) || y == id) by {
        if has_vrec(done, y) {
            let k = choose|k: int| 0 <= k < done.len() && done[k].0 == y;
            assert(d2[k].0 == y);
        }
        if y == id {
            assert(d2[done.len() as int].0 == id);
        }
        if has_vrec(d2, y) && y != id {
            let k = choose|k: int| 0 <= k < d2.len() && d2[k].0 == y;
            assert(k < done.len());
            assert(done[k].0 == y);
        }
    }
}

impl Graph<String, String> {
    /// Reads a TGF document. The text is split at the single `#`; each
    /// non-blank vertex line yields an id and an optional label (a later
    /// line with the same id overrides the label), each non-blank edge
    /// line yields one parallel edge, skipped when either endpoint is
    /// absent. Fails, leaving nothing built, when the `#` count is not
    /// one or some id token is not a machine-sized non-negative integer.
    #[verifier::rlimit(80)]
    pub fn deserialize_from_tgf(contents: String) -> (r: Result<Self, TgfError>)
        ensures
            ({
                let cs = contents@;
                let h = hash_pos(cs);
                let vsec = cs.take(h);
                let esec = cs.skip(h + 1);
                &&& (r is Ok <==> occ(cs, '#') == 1 && vrecs(vsec) is Some && erecs(esec)
                    is Some)
                &&& (occ(cs, '#') != 1 ==> r == Err::<Self, TgfError>(TgfError::Delimiter))
                &&& (occ(cs, '#') == 1 && !(vrecs(vsec) is Some && erecs(esec) is Some) ==> r
                    == Err::<Self, TgfError>(TgfError::BadId))
                &&& match r {
                    Ok(g) => {
                        let vr = vrecs(vsec)->Some_0;
                        let er = erecs(esec)->Some_0;
                        &&& crate::graph::wf(g@)
                        &&& forall|y: int| crate::graph::has_id(g@, y) <==> has_vrec(vr, y)
                        &&& forall|y: int|
                            has_vrec(vr, y) ==> eview_one(
                                #[trigger] crate::graph::label_of(g@, y),
                            ) == vlabel_in(vr, y)
                        &&& g@.last == max_vid(vr)
                        &&& forall|a: int, b: int|
                            crate::graph::has_id(g@, a) && crate::graph::has_id(g@, b)
                                ==> eview(#[trigger] crate::graph::label_seq(g@, a, b))
                                == epairs(er, a, b)
                    },
                    Err(_) => true,
                }
            }),
    {
        let cs = to_chars(contents.as_str());
        let n = cs.len();
        let mut cnt: usize = 0;
        let mut h: usize = 0;
        let mut i: usize = 0;
        while i < n
            invariant
                n == cs@.len(),
                i <= n,
                cnt <= i,
                cnt as int == occ(cs@.take(i as int), '#'),
                cnt > 0 ==> h < i && cs@[h as int] == '#' && (forall|k: int|
                    0 <= k < h ==> cs@[k] != '#'),
                cnt == 0 ==> forall|k: int| 0 <= k < i ==> cs@[k] != '#',
            decreases n - i,
        {
            proof {
                assert(cs@.take(i as int + 1).drop_last() =~= cs@.take(i as int));
                assert(cs@.take(i as int + 1).last() == cs@[i as int]);
            }
            if cs[i] == '#' {
                if cnt == 0 {
                    h = i;
                }
                cnt = cnt + 1;
            }
            i = i + 1;
        }
        proof {
            assert(cs@.take(n as int) =~= cs@);
        }
        if cnt != 1 {
            return Err(TgfError::Delimiter);
        }
        proof {
            let c = hash_pos(cs@);
            assert(0 <= h < cs@.len() && cs@[h as int] == '#' && (forall|k: int|
                0 <= k < h ==> cs@[k] != '#'));
            if c != h as int {
                if c < h {
                    assert(cs@[c] != '#');
                } else {
                    assert(0 <= c < cs@.len() && cs@[c] == '#' && (forall|k: int|
                        0 <= k < c ==> cs@[k] != '#'));
                    assert(cs@[h as int] != '#');
                }
            }
            assert(hash_pos(cs@) == h as int);
            assert(cs@ =~= cs@.take(h as int + 1) + cs@.skip(h as int + 1));
            lemma_occ_add(cs@.take(h as int + 1), cs@.skip(h as int + 1), '#');
            assert(cs@.take(h as int + 1).drop_last() =~= cs@.take(h as int));
            assert(cs@.take(h as int + 1).last() == '#');
            lemma_occ_zero(cs@.take(h as int), '#');
            assert(occ(cs@.take(h as int), '#') == 0) by {
                assert(forall|k: int| 0 <= k < h ==> cs@.take(h as int)[k] != '#');
            }
            assert(occ(cs@.skip(h as int + 1), '#') == 0);
            lemma_occ_zero(cs@.skip(h as int + 1), '#');
        }
        let vsec = sub_chars(&cs, 0, h);
        let esec = sub_chars(&cs, h + 1, n);
        proof {
            assert(vsec@ =~= cs@.take(h as int));
            assert(esec@ =~= cs@.skip(h as int + 1));
        }
        let mut g: Graph<String, String> = Graph::new();
        let ghost mut done: Seq<(int, Option<Seq<char>>)> = Seq::empty();
        let vlen = vsec.len();
        let mut pos: usize = 0;
        proof {
            assert(vsec@.skip(0) =~= vsec@);
            if vrecs(vsec@) is Some {
                assert(Seq::<(int, Option<Seq<char>>)>::empty() + vrecs(vsec@)->Some_0 =~= vrecs(
                    vsec@,
                )->Some_0);
            }
        }
        while pos < vlen
            invariant
                cs@ == contents@,
                occ(contents@, '#') == 1,
                hash_pos(contents@) == h as int,
                vsec@ == contents@.take(h as int),
                esec@ == contents@.skip(h as int + 1),
                vlen == vsec@.len(),
                pos <= vlen,
                crate::graph::wf(g@),
                (match vrecs(vsec@.skip(pos as int)) {
                    Option::None => vrecs(vsec@) is None,
                    Option::Some(r2) => vrecs(vsec@) == Some(done + r2),
                }),
                forall|y: int| crate::graph::has_id(g@, y) <==> has_vrec(done, y),
                forall|y: int|
                    has_vrec(done, y) ==> eview_one(#[trigger] crate::graph::label_of(g@, y))
                        == vlabel_in(done, y),
                g@.last == max_vid(done),
                forall|a: int, b: int| #[trigger] crate::graph::label_seq(g@, a, b) == Seq::<
                    Option<String>,
                >::empty(),
            decreases vlen - pos,
        {
            let ghost rem = vsec@.skip(pos as int);
            let e = find_nl(&vsec, pos);
            let line = sub_chars(&vsec, pos, e);
            let ghost rest = if e < vlen {
                vsec@.skip(e as int + 1)
            } else {
                Seq::<char>::empty()
            };
            proof {
                assert(rem.len() > 0);
                assert(nl_pos(rem) == e as int - pos as int);
                assert(line@ =~= rem.take(nl_pos(rem)));
                if e < vlen {
                    assert(rem.skip(nl_pos(rem) + 1) =~= vsec@.skip(e as int + 1));
                }
            }
            let t = trim_chars(&line);
            if t.len() == 0 {
                proof {
                    assert(parse_vline(line@) == VLine::Blank);
                }
            } else {
                let w = first_ws_x(&t);
                let tok = sub_chars(&t, 0, w);
                proof {
                    assert(tok@ =~= t@.take(w as int));
                    lemma_first_ws(t@);
                }
                match parse_num(&tok) {
                    Option::None => {
                        proof {
                            assert(parse_vline(line@) == VLine::Bad);
                            assert(vrecs(rem) is None);
                            assert(vrecs(vsec@) is None);
                            assert(cs@ == contents@);
                            assert(vsec@ == contents@.take(hash_pos(contents@)));
                            assert(vrecs(contents@.take(hash_pos(contents@))) is None);
                        }
                        return Err(TgfError::BadId);
                    },
                    Option::Some(id) => {
                        let f = skip_ws(&t, w);
                        let lab_chars = sub_chars(&t, f, t.len());
                        proof {
                            assert(lab_chars@ =~= trim_front(t@.skip(w as int)));
                        }
                        let ghost labv: Option<Seq<char>> = if lab_chars@.len() == 0 {
                            Option::None
                        } else {
                            Option::Some(lab_chars@)
                        };
                        proof {
                            assert(parse_vline(line@) == (VLine::Rec {
                                vid: id as int,
                                vlabel: labv,
                            }));
                        }
                        let label_opt: Option<String> = if lab_chars.len() == 0 {
                            Option::None
                        } else {
                            Option::Some(chars_to_string(&lab_chars))
                        };
                        let ghost gpre = g@;
                        g.upsert_vertex(id, label_opt);
                        proof {
                            let ghost dpre = done;
                            lemma_vrec_push(dpre, id as int, labv);
                            done = dpre.push((id as int, labv));
                            assert forall|y: int|
                                crate::graph::has_id(g@, y) <==> has_vrec(done, y) by {
                                assert(crate::graph::has_id(g@, y) <==> (crate::graph::has_id(
                                    gpre,
                                    y,
                                ) || y == id as int));
                                assert(crate::graph::has_id(gpre, y) <==> has_vrec(dpre, y));
                                assert(has_vrec(done, y) <==> (has_vrec(dpre, y) || y
                                    == id as int));
                            }
                            assert(g@.last == max_vid(done));
                            assert(eview_one(crate::graph::label_of(g@, id as int)) == labv);
                            assert forall|y: int|
                                has_vrec(done, y) implies eview_one(
                                #[trigger] crate::graph::label_of(g@, y),
                            ) == vlabel_in(done, y) by {
                                if y != id as int {
                                    assert(crate::graph::label_of(g@, y)
                                        == crate::graph::label_of(gpre, y));
                                }
                            }
                        }
                    },
                }
            }
            proof {
                match vrecs(rest) {
                    Option::None => {
                        assert(vrecs(rem) is None);
                    },
                    Option::Some(r3) => {
                        match parse_vline(line@) {
                            VLine::Blank => {
                                assert(vrecs(rem) == Some(r3));
                            },
                            VLine::Rec { vid, vlabel } => {
                                assert(vrecs(rem) == Some(seq![(vid, vlabel)] + r3));
                                assert(done.drop_last() + (seq![(vid, vlabel)] + r3) =~= done
                                    + r3);
                            },
                            VLine::Bad => {},
                        }
                    },
                }
            }
            if e >= vlen {
                pos = vlen;
                proof {
                    assert(vsec@.skip(pos as int) =~= rest);
                }
            } else {
                pos = e + 1;
                proof {
                    assert(vsec@.skip(pos as int) =~= rest);
                }
            }
        }
        proof {
            assert(vsec@.skip(vlen as int) =~= Seq::<char>::empty());
            assert(vrecs(vsec@.skip(pos as int)) == Some(Seq::<(int, Option<Seq<char>>)>::empty()));
            assert(done + Seq::<(int, Option<Seq<char>>)>::empty() =~= done);
            assert(vrecs(vsec@) == Some(done));
        }
        let ghost vr = done;
        let ghost mut edone: Seq<(int, int, Seq<char>)> = Seq::empty();
        let elen = esec.len();
        let mut pos: usize = 0;
        proof {
            assert(esec@.skip(0) =~= esec@);
            if erecs(esec@) is Some {
                assert(Seq::<(int, int, Seq<char>)>::empty() + erecs(esec@)->Some_0 =~= erecs(
                    esec@,
                )->Some_0);
            }
        }
        while pos < elen
            invariant
                cs@ == contents@,
                occ(contents@, '#') == 1,
                hash_pos(contents@) == h as int,
                vsec@ == contents@.take(h as int),
                esec@ == contents@.skip(h as int + 1),
                elen == esec@.len(),
                pos <= elen,
                crate::graph::wf(g@),
                vrecs(vsec@) == Some(vr),
                (match erecs(esec@.skip(pos as int)) {
                    Option::None => erecs(esec@) is None,
                    Option::Some(r2) => erecs(esec@) == Some(edone + r2),
                }),
                forall|y: int| crate::graph::has_id(g@, y) <==> has_vrec(vr, y),
                forall|y: int|
                    has_vrec(vr, y) ==> eview_one(#[trigger] crate::graph::label_of(g@, y))
                        == vlabel_in(vr, y),
                g@.last == max_vid(vr),
                forall|a: int, b: int|
                    crate::graph::has_id(g@, a) && crate::graph::has_id(g@, b) ==> eview(
                        #[trigger] crate::graph::label_seq(g@, a, b),
                    ) == epairs(edone, a, b),
            decreases elen - pos,
        {
            let ghost rem = esec@.skip(pos as int);
            let e = find_nl(&esec, pos);
            let line = sub_chars(&esec, pos, e);
            let ghost rest = if e < elen {
                esec@.skip(e as int + 1)
            } else {
                Seq::<char>::empty()
            };
            proof {
                assert(rem.len() > 0);
                assert(nl_pos(rem) == e as int - pos as int);
                assert(line@ =~= rem.take(nl_pos(rem)));
                if e < elen {
                    assert(rem.skip(nl_pos(rem) + 1) =~= esec@.skip(e as int + 1));
                }
            }
            let t = trim_chars(&line);
            if t.len() == 0 {
                proof {
                    assert(parse_eline(line@) == ELine::Blank);
                }
            } else {
                let w1 = first_ws_x(&t);
                let tok1 = sub_chars(&t, 0, w1);
                let f1 = skip_ws(&t, w1);
                let r1 = sub_chars(&t, f1, t.len());
                proof {
                    assert(tok1@ =~= t@.take(w1 as int));
                    assert(r1@ =~= trim_front(t@.skip(w1 as int)));
                }
                let w2 = first_ws_x(&r1);
                let tok2 = sub_chars(&r1, 0, w2);
                let f2 = skip_ws(&r1, w2);
                let lab_chars = sub_chars(&r1, f2, r1.len());
                proof {
                    assert(tok2@ =~= r1@.take(w2 as int));
                    assert(lab_chars@ =~= trim_front(r1@.skip(w2 as int)));
                }
                let n1 = parse_num(&tok1);
                let n2 = parse_num(&tok2);
                match (n1, n2) {
                    (Option::Some(from), Option::Some(to)) => {
                        proof {
                            assert(parse_eline(line@) == (ELine::Rec {
                                efrom: from as int,
                                eto: to as int,
                                elabel: lab_chars@,
                            }));
                        }
                        let lab = chars_to_string(&lab_chars);
                        let ghost gpre = g@;
                        let res = g.add_edge_label(&from, &to, Option::Some(lab));
                        proof {
                            let rec = (from as int, to as int, lab_chars@);
                            let ed2 = edone.push(rec);
                            assert(ed2.drop_last() =~= edone);
                            assert(ed2.last() == rec);
                            edone = ed2;
                            assert(crate::graph::ids_of(g@) =~= crate::graph::ids_of(gpre));
                            crate::graph::lemma_same_ids(g@, gpre);
                            assert forall|y: int|
                                #[trigger] crate::graph::label_of(g@, y) == crate::graph::label_of(
                                gpre,
                                y,
                            ) by {
                                if crate::graph::has_id(gpre, y) {
                                    let i = crate::graph::idx_of(gpre, y);
                                    crate::graph::lemma_idx_at(gpre, i);
                                    crate::graph::lemma_idx_at(g@, i);
                                }
                            }
                            assert forall|a: int, b: int|
                                crate::graph::has_id(g@, a) && crate::graph::has_id(
                                    g@,
                                    b,
                                ) implies eview(#[trigger] crate::graph::label_seq(g@, a, b))
                                == epairs(edone, a, b) by {
                                let p = |x: (int, int, Seq<char>)| x.0 == a && x.1 == b;
                                assert(ed2.filter(p) == if p(rec) {
                                    ed2.drop_last().filter(p).push(rec)
                                } else {
                                    ed2.drop_last().filter(p)
                                }) by {
                                    reveal(Seq::filter);
                                }
                                if a == from as int && b == to as int {
                                    assert(res is Ok);
                                    assert(crate::graph::label_seq(g@, a, b) =~= crate::graph::label_seq(
                                        gpre,
                                        a,
                                        b,
                                    ).push(Option::Some(lab)));
                                    assert(eview(crate::graph::label_seq(g@, a, b)) =~= eview(
                                        crate::graph::label_seq(gpre, a, b),
                                    ).push(Option::Some(lab@)));
                                    assert(epairs(ed2, a, b) =~= epairs(
                                        edone.drop_last(),
                                        a,
                                        b,
                                    ).push(Option::Some(lab_chars@)));
                                } else {
                                    assert(crate::graph::label_seq(g@, a, b)
                                        == crate::graph::label_seq(gpre, a, b));
                                    assert(epairs(ed2, a, b) == epairs(edone.drop_last(), a, b));
                                }
                            }
                        }
                    },
                    _ => {
                        proof {
                            assert(parse_eline(line@) == ELine::Bad);
                            assert(erecs(rem) is None);
                            assert(erecs(esec@) is None);
                            assert(cs@ == contents@);
                            assert(esec@ == contents@.skip(hash_pos(contents@) + 1));
                            assert(erecs(contents@.skip(hash_pos(contents@) + 1)) is None);
                        }
                        return Err(TgfError::BadId);
                    },
                }
            }
            proof {
                match erecs(rest) {
                    Option::None => {
                        assert(erecs(rem) is None);
                    },
                    Option::Some(r3) => {
                        match parse_eline(line@) {
                            ELine::Blank => {
                                assert(erecs(rem) == Some(r3));
                            },
                            ELine::Rec { efrom, eto, elabel } => {
                                assert(erecs(rem) == Some(seq![(efrom, eto, elabel)] + r3));
                                assert(edone.drop_last() + (seq![(efrom, eto, elabel)] + r3)
                                    =~= edone + r3);
                            },
                            ELine::Bad => {},
                        }
                    },
                }
            }
            if e >= elen {
                pos = elen;
                proof {
                    assert(esec@.skip(pos as int) =~= rest);
                }
            } else {
                pos = e + 1;
                proof {
                    assert(esec@.skip(pos as int) =~= rest);
                }
            }
        }
        proof {
            assert(esec@.skip(elen as int) =~= Seq::<char>::empty());
            assert(edone + Seq::<(int, int, Seq<char>)>::empty() =~= edone);
            assert(erecs(esec@) == Some(edone));
        }
        Ok(g)
    }
}

/// One direction of the round trip, a line at a time: parsing the line
/// the serializer writes for a vertex recovers its id, and its label up
/// to the known collapse of an absent label and an empty one.
pub proof fn lemma_vertex_line_round_trip(v: VertexModel<String, String>)
    requires
        0 <= v.id <= usize::MAX,
        match v.label {
            Some(l) => trim_spec(l@) == l@,
            None => true,
        },
    ensures
        render_vertex_line(v).last() == '\n',
        parse_vline(render_vertex_line(v).drop_last()) == (VLine::Rec {
            vid: v.id,
            vlabel: match v.label {
                Some(l) => if l@.len() == 0 {
                    None
                } else {
                    Some(l@)
                },
                None => None,
            },
        }),
{
    let ds = dec_seq(v.id);
    let lab = render_label(v.label);
    let line = ds + seq![' '] + lab;
    lemma_dec_round_trip(v.id);
    lemma_dec_digits(v.id);
    assert(render_vertex_line(v).drop_last() =~= line);
    assert forall|i: int| 0 <= i < ds.len() implies !is_space(#[trigger] ds[i]) by {
        assert(digit_val(ds[i]) >= 0);
    }
    // the label is trim-stable: when non-empty it neither starts nor ends
    // with whitespace
    if lab.len() > 0 {
        let l = v.label->0;
        assert(lab == l@);
        assert(trim_front(trim_back(l@)) == l@);
        assert(trim_back(l@).len() <= l@.len()) by {
            lemma_trim_back_len(l@);
        }
        assert(trim_front(trim_back(l@)).len() <= trim_back(l@).len()) by {
            lemma_trim_front_len(trim_back(l@));
        }
        assert(trim_back(l@).len() == l@.len());
        assert(!is_space(l@.last())) by {
            if is_space(l@.last()) {
                lemma_trim_back_len(l@.drop_last());
                assert(trim_back(l@) == trim_back(l@.drop_last()));
                assert(trim_back(l@).len() <= l@.len() - 1);
            }
        }
        assert(trim_back(l@) == l@);
        assert(trim_front(l@) == l@);
        assert(!is_space(l@[0])) by {
            if is_space(l@[0]) {
                lemma_trim_front_len(l@.drop_first());
                assert(trim_front(l@).len() <= l@.len() - 1);
            }
        }
    }
    // trimming the rendered line strips exactly the separator when the
    // label is empty, and nothing otherwise
    let t = trim_spec(line);
    if lab.len() == 0 {
        assert(line =~= ds + seq![' ']);
        assert(line.last() == ' ');
        assert(trim_back(line) == trim_back(line.drop_last()));
        assert(line.drop_last() =~= ds);
        assert(ds.len() > 0 && !is_space(ds.last()));
        assert(trim_back(ds) == ds);
        lemma_trim_front_id(ds);
        assert(t == ds);
        assert(t.len() > 0);
        lemma_first_ws_concat(ds, Seq::<char>::empty());
        assert(ds + Seq::<char>::empty() =~= ds);
        assert(first_ws(t) == ds.len());
        assert(t.take(ds.len() as int) =~= ds);
        assert(t.skip(ds.len() as int) =~= Seq::<char>::empty());
        assert(trim_front(Seq::<char>::empty()) =~= Seq::<char>::empty());
        assert(parse_vline(line) == (VLine::Rec { vid: v.id, vlabel: None }));
    } else {
        assert(line.last() == lab.last());
        assert(!is_space(line.last()));
        assert(trim_back(line) == line);
        assert(line[0] == ds[0]);
        lemma_trim_front_id(line);
        assert(t == line);
        assert(t.len() > 0);
        lemma_first_ws_concat(ds, seq![' '] + lab);
        assert(ds + (seq![' '] + lab) =~= line);
        assert((seq![' '] + lab)[0] == ' ');
        assert(first_ws(seq![' '] + lab) == 0);
        assert(first_ws(t) == ds.len());
        assert(t.take(ds.len() as int) =~= ds);
        assert(t.skip(ds.len() as int) =~= seq![' '] + lab);
        assert((seq![' '] + lab).drop_first() =~= lab);
        assert(trim_front(seq![' '] + lab) == trim_front(lab));
        lemma_trim_front_id(lab);
        assert(parse_vline(line) == (VLine::Rec { vid: v.id, vlabel: Some(lab) }));
    }
}

/// A non-empty trim-stable text neither starts nor ends with whitespace.
proof fn lemma_trim_stable(l: Seq<char>)
    requires
        trim_spec(l) == l,
        l.len() > 0,
    ensures
        !is_space(l[0]),
        !is_space(l.last()),
        trim_back(l) == l,
        trim_front(l) == l,
{
    lemma_trim_back_len(l);
    lemma_trim_front_len(trim_back(l));
    assert(trim_back(l).len() == l.len());
    assert(!is_space(l.last())) by {
        if is_space(l.last()) {
            lemma_trim_back_len(l.drop_last());
            assert(trim_back(l) == trim_back(l.drop_last()));
            assert(trim_back(l).len() <= l.len() - 1);
        }
    }
    assert(trim_back(l) == l);
    assert(trim_front(l) == l);
    assert(!is_space(l[0])) by {
        if is_space(l[0]) {
            lemma_trim_front_len(l.drop_first());
            assert(trim_front(l).len() <= l.len() - 1);
        }
    }
}

/// One direction of the round trip for an edge line: parsing the line the
/// serializer writes for one parallel edge recovers both endpoint ids and
/// the label's text, an absent label reading back as the empty string.
#[verifier::rlimit(80)]
pub proof fn lemma_edge_line_round_trip(from: int, to: int, l: Option<String>)
    requires
        0 <= from <= usize::MAX,
        0 <= to <= usize::MAX,
        match l {
            Some(t) => trim_spec(t@) == t@,
            None => true,
        },
    ensures
        render_edge_line(from, to, l).last() == '\n',
        parse_eline(render_edge_line(from, to, l).drop_last()) == (ELine::Rec {
            efrom: from,
            eto: to,
            elabel: render_label(l),
        }),
{
    let dsf = dec_seq(from);
    let dst = dec_seq(to);
    let lab = render_label(l);
    let line = dsf + seq![' '] + dst + seq![' '] + lab;
    lemma_dec_round_trip(from);
    lemma_dec_digits(from);
    lemma_dec_round_trip(to);
    lemma_dec_digits(to);
    assert(render_edge_line(from, to, l).drop_last() =~= line);
    assert forall|i: int| 0 <= i < dsf.len() implies !is_space(#[trigger] dsf[i]) by {
        assert(digit_val(dsf[i]) >= 0);
    }
    assert forall|i: int| 0 <= i < dst.len() implies !is_space(#[trigger] dst[i]) by {
        assert(digit_val(dst[i]) >= 0);
    }
    if lab.len() > 0 {
        lemma_trim_stable(lab);
    }
    let mid = dst + seq![' '] + lab;
    let t = trim_spec(line);
    // trimming strips exactly the final separator when the label is empty
    if lab.len() == 0 {
        assert(line =~= (dsf + seq![' '] + dst) + seq![' ']);
        assert(line.last() == ' ');
        assert(trim_back(line) == trim_back(line.drop_last()));
        assert(line.drop_last() =~= dsf + seq![' '] + dst);
        assert((dsf + seq![' '] + dst).last() == dst.last());
        assert(!is_space(dst.last()));
        assert(trim_back(dsf + seq![' '] + dst) == dsf + seq![' '] + dst);
        assert((dsf + seq![' '] + dst)[0] == dsf[0]);
        lemma_trim_front_id(dsf + seq![' '] + dst);
        assert(t == dsf + seq![' '] + dst);
    } else {
        assert(line.last() == lab.last());
        assert(!is_space(line.last()));
        assert(trim_back(line) == line);
        assert(line[0] == dsf[0]);
        lemma_trim_front_id(line);
        assert(t == line);
    }
    // the first token is the source id
    let tail = if lab.len() == 0 {
        dst
    } else {
        dst + seq![' '] + lab
    };
    assert(t =~= dsf + (seq![' '] + tail));
    lemma_first_ws_concat(dsf, seq![' '] + tail);
    assert((seq![' '] + tail)[0] == ' ');
    assert(first_ws(seq![' '] + tail) == 0);
    assert(first_ws(t) == dsf.len());
    assert(t.len() > 0);
    assert(t.take(dsf.len() as int) =~= dsf);
    assert(t.skip(dsf.len() as int) =~= seq![' '] + tail);
    assert((seq![' '] + tail).drop_first() =~= tail);
    assert(trim_front(seq![' '] + tail) == trim_front(tail));
    assert(tail[0] == dst[0]);
    lemma_trim_front_id(tail);
    let r1 = trim_front(t.skip(first_ws(t)));
    assert(r1 == tail);
    // the second token is the target id
    if lab.len() == 0 {
        lemma_first_ws_concat(dst, Seq::<char>::empty());
        assert(dst + Seq::<char>::empty() =~= dst);
        assert(first_ws(r1) == dst.len());
        assert(r1.take(dst.len() as int) =~= dst);
        assert(r1.skip(dst.len() as int) =~= Seq::<char>::empty());
        assert(trim_front(Seq::<char>::empty()) =~= Seq::<char>::empty());
        assert(trim_spec(line) == t);
        assert(t.len() != 0);
        assert(t.take(first_ws(t)) == dsf);
        assert(tok_ok(dsf) && dec_val(dsf) == from);
        assert(r1.take(first_ws(r1)) == dst);
        assert(tok_ok(dst) && dec_val(dst) == to);
        assert(trim_front(r1.skip(first_ws(r1))) =~= lab);
        assert(parse_eline(line) == (ELine::Rec { efrom: from, eto: to, elabel: lab }));
    } else {
        assert(r1 =~= dst + (seq![' '] + lab));
        lemma_first_ws_concat(dst, seq![' '] + lab);
        assert((seq![' '] + lab)[0] == ' ');
        assert(first_ws(seq![' '] + lab) == 0);
        assert(first_ws(r1) == dst.len());
        assert(r1.take(dst.len() as int) =~= dst);
        assert(r1.skip(dst.len() as int) =~= seq![' '] + lab);
        assert((seq![' '] + lab).drop_first() =~= lab);
        assert(trim_front(seq![' '] + lab) == trim_front(lab));
        lemma_trim_front_id(lab);
        assert(parse_eline(line) == (ELine::Rec { efrom: from, eto: to, elabel: lab }));
    }
}

/// Trimming the back never lengthens the text.
proof fn lemma_trim_back_len(s: Seq<char>)
    ensures
        trim_back(s).len() <= s.len(),
    decreases s.len(),
{
    if s.len() > 0 && is_space(s.last()) {
        lemma_trim_back_len(s.drop_last());
    }
}

/// Trimming the front never lengthens the text.
proof fn lemma_trim_front_len(s: Seq<char>)
    ensures
        trim_front(s).len() <= s.len(),
    decreases s.len(),
{
    if s.len() > 0 && is_space(s[0]) {
        lemma_trim_front_len(s.drop_first());
    }
}

} // verus!
