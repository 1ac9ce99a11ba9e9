//! The translation model: a text as literal runs and `{:N}` placeholders.
use vstd::prelude::*;

use crate::text::{
    chars_of, decimal, digit_value, digits_value, is_digit, is_numeral, lemma_decimal_of_numeral,
    lemma_digit_round_trip, push_char, push_chars, push_decimal,
};

verus! {

/// One piece of a translation.
#[derive(Debug, PartialEq, Eq, Hash, PartialOrd, Ord)]
pub enum Segment {
    /// Text copied as it stands.
    Literal(String),
    /// The runtime argument at this position, written `{:N}`.
    Placeholder(usize),
}

/// What a [`Segment`] holds, in mathematical terms.
pub enum SegmentView {
    Literal(Seq<char>),
    Placeholder(usize),
}

impl View for Segment {
    type V = SegmentView;

    open spec fn view(&self) -> SegmentView {
        match self {
            Segment::Literal(s) => SegmentView::Literal(s@),
            Segment::Placeholder(n) => SegmentView::Placeholder(*n),
        }
    }
}

/// A text decomposed into literal runs and positional placeholders.
///
/// Equality and order are those of the segment sequence.
#[derive(Debug, PartialEq, Eq, Hash, PartialOrd, Ord)]
pub struct Translation {
    segments: Vec<Segment>,
}

/// Another name for [`Translation`], for the entries of a dictionary.
pub type Def = Translation;

/// Why a text could not be read as a translation.
#[derive(Clone, Copy, Debug, PartialEq, Eq)]
pub enum TranslationError {
    /// A `{:` that does not open a well-formed `{:N}` marker.
    Parse,
    /// The runtime text does not have the shape of the source text, or the
    /// template names a placeholder that the source text lacks.
    Mismatch,
    /// Reserved for failures of no other kind.
    Unknown,
}

/// Another name for [`TranslationError`].
pub type DefError = TranslationError;

pub open spec fn segments_view(s: Seq<Segment>) -> Seq<SegmentView> {
    s.map_values(|g: Segment| g@)
}

impl View for Translation {
    type V = Seq<SegmentView>;

    closed spec fn view(&self) -> Seq<SegmentView> {
        segments_view(self.segments@)
    }
}

// ---------------------------------------------------------------------------
// Text of a segment sequence
// ---------------------------------------------------------------------------

/// How a placeholder is written.
pub open spec fn marker_text(n: usize) -> Seq<char> {
    seq!['{', ':'] + decimal(n as nat) + seq!['}']
}

pub open spec fn segment_text(g: SegmentView) -> Seq<char> {
    match g {
        SegmentView::Literal(s) => s,
        SegmentView::Placeholder(n) => marker_text(n),
    }
}

/// The flat text of a segment sequence: literals verbatim, placeholders as `{:N}`.
pub open spec fn text_of(segs: Seq<SegmentView>) -> Seq<char>
    decreases segs.len(),
{
    if segs.len() == 0 {
        Seq::empty()
    } else {
        segment_text(segs[0]) + text_of(segs.drop_first())
    }
}

pub proof fn lemma_text_of_push(segs: Seq<SegmentView>, g: SegmentView)
    ensures
        text_of(segs.push(g)) == text_of(segs) + segment_text(g),
    decreases segs.len(),
{
    if segs.len() == 0 {
        assert(segs.push(g).drop_first() =~= Seq::<SegmentView>::empty());
        assert(text_of(segs.push(g).drop_first()) == Seq::<char>::empty());
        assert(text_of(segs) == Seq::<char>::empty());
        assert(text_of(segs.push(g)) =~= text_of(segs) + segment_text(g));
    } else {
        assert(segs.push(g).drop_first() =~= segs.drop_first().push(g));
        lemma_text_of_push(segs.drop_first(), g);
        assert(text_of(segs.push(g)) =~= text_of(segs) + segment_text(g));
    }
}

// ---------------------------------------------------------------------------
// Parsing
// ---------------------------------------------------------------------------

/// Whether `t` starts with the two characters that open a marker.
pub open spec fn opens_marker(t: Seq<char>) -> bool {
    t.len() >= 2 && t[0] == '{' && t[1] == ':'
}

/// The number of decimal digits at the start of `s`.
pub open spec fn digit_run(s: Seq<char>) -> nat
    decreases s.len(),
{
    if s.len() > 0 && is_digit(s[0]) {
        1 + digit_run(s.drop_first())
    } else {
        0
    }
}

/// For `t` opening a marker: the placeholder index and the marker's length,
/// when `t` starts with `{:N}`, `N` a numeral without leading zero whose
/// value fits in `usize`.
pub open spec fn marker(t: Seq<char>) -> Option<(usize, nat)> {
    let d = digit_run(t.skip(2)) as int;
    let ds = t.subrange(2, 2 + d);
    if d > 0 && 2 + d < t.len() && t[2 + d] == '}' && (d == 1 || ds[0] != '0') && digits_value(ds)
        <= usize::MAX {
        Some((digits_value(ds) as usize, (d + 3) as nat))
    } else {
        None
    }
}

/// Puts `c` in front of a segment sequence, joining it to a leading literal.
pub open spec fn prepend_char(c: char, segs: Seq<SegmentView>) -> Seq<SegmentView> {
    if segs.len() > 0 && segs[0] is Literal {
        seq![SegmentView::Literal(seq![c] + segs[0]->Literal_0)] + segs.drop_first()
    } else {
        seq![SegmentView::Literal(seq![c])] + segs
    }
}

/// The segments of `t`, or `None` when a `{:` in `t` opens no well-formed marker.
///
/// Literal runs are maximal and never empty; markers become placeholders in
/// the order they occur.
pub open spec fn parse_segments(t: Seq<char>) -> Option<Seq<SegmentView>>
    decreases t.len(),
{
    if t.len() == 0 {
        Some(Seq::empty())
    } else if opens_marker(t) {
        match marker(t) {
            Some((n, len)) => if 0 < len <= t.len() {
                match parse_segments(t.skip(len as int)) {
                    Some(rest) => Some(seq![SegmentView::Placeholder(n)] + rest),
                    None => None,
                }
            } else {
                None
            },
            None => None,
        }
    } else {
        match parse_segments(t.skip(1)) {
            Some(rest) => Some(prepend_char(t[0], rest)),
            None => None,
        }
    }
}

proof fn lemma_text_of_prepend(c: char, segs: Seq<SegmentView>)
    ensures
        text_of(prepend_char(c, segs)) == seq![c] + text_of(segs),
{
    let p = prepend_char(c, segs);
    if segs.len() > 0 && segs[0] is Literal {
        assert(p.drop_first() =~= segs.drop_first());
        assert(text_of(p) =~= seq![c] + text_of(segs));
    } else {
        assert(p.drop_first() =~= segs);
        assert(text_of(p) =~= seq![c] + text_of(segs));
    }
}

proof fn lemma_digit_run(s: Seq<char>)
    ensures
        digit_run(s) <= s.len(),
        forall|i: int| 0 <= i < digit_run(s) ==> is_digit(#[trigger] s[i]),
        digit_run(s) < s.len() ==> !is_digit(s[digit_run(s) as int]),
    decreases s.len(),
{
    if s.len() > 0 && is_digit(s[0]) {
        lemma_digit_run(s.drop_first());
        assert forall|i: int| 0 <= i < digit_run(s) implies is_digit(#[trigger] s[i]) by {
            if i > 0 {
                assert(s[i] == s.drop_first()[i - 1]);
            }
        }
    }
}

/// Round trip: writing out the segments that parsing read from a text gives
/// back that text exactly.
pub proof fn lemma_round_trip(t: Seq<char>)
    requires
        parse_segments(t) is Some,
    ensures
        text_of(parse_segments(t)->0) == t,
    decreases t.len(),
{
    if t.len() == 0 {
    } else if opens_marker(t) {
        let (n, len) = marker(t)->0;
        let rest = t.skip(len as int);
        lemma_round_trip(rest);
        let d = digit_run(t.skip(2)) as int;
        let ds = t.subrange(2, 2 + d);
        lemma_digit_run(t.skip(2));
        assert forall|i: int| 0 <= i < ds.len() implies is_digit(#[trigger] ds[i]) by {
            assert(ds[i] == t.skip(2)[i]);
        }
        lemma_decimal_of_numeral(ds);
        let segs = seq![SegmentView::Placeholder(n)] + parse_segments(rest)->0;
        assert(segs.drop_first() =~= parse_segments(rest)->0);
        assert(text_of(segs) == marker_text(n) + text_of(parse_segments(rest)->0));
        assert(t =~= marker_text(n) + rest);
    } else {
        let rest = t.skip(1);
        lemma_round_trip(rest);
        lemma_text_of_prepend(t[0], parse_segments(rest)->0);
        assert(t =~= seq![t[0]] + rest);
    }
}

/// Joins a pending literal run `lit` to the front of `segs`.
pub open spec fn attach(lit: Seq<char>, segs: Seq<SegmentView>) -> Seq<SegmentView> {
    if lit.len() == 0 {
        segs
    } else if segs.len() > 0 && segs[0] is Literal {
        seq![SegmentView::Literal(lit + segs[0]->Literal_0)] + segs.drop_first()
    } else {
        seq![SegmentView::Literal(lit)] + segs
    }
}

proof fn lemma_attach_prepend(lit: Seq<char>, c: char, segs: Seq<SegmentView>)
    ensures
        attach(lit, prepend_char(c, segs)) == attach(lit.push(c), segs),
{
    let p = prepend_char(c, segs);
    if lit.len() == 0 {
        assert(lit.push(c) =~= seq![c]);
    } else {
        if segs.len() > 0 && segs[0] is Literal {
            assert(lit + (seq![c] + segs[0]->Literal_0) =~= lit.push(c) + segs[0]->Literal_0);
            assert(p.drop_first() =~= segs.drop_first());
        } else {
            assert(lit + seq![c] =~= lit.push(c));
            assert(p.drop_first() =~= segs);
        }
    }
    assert(attach(lit, prepend_char(c, segs)) =~= attach(lit.push(c), segs));
}

/// For `cs[i..]` opening a marker: what [`marker`] gives.
fn read_marker(cs: &Vec<char>, i: usize) -> (r: Option<(usize, usize)>)
    requires
        i < cs.len(),
        opens_marker(cs@.skip(i as int)),
    ensures
        match r {
            Some((n, len)) => marker(cs@.skip(i as int)) == Some((n, len as nat)),
            None => marker(cs@.skip(i as int)) is None,
        },
{
    let ghost t = cs@.skip(i as int);
    let ghost s = t.skip(2);
    let start = i + 2;
    let mut j: usize = start;
    while j < cs.len() && '0' <= cs[j] && cs[j] <= '9'
        invariant
            start <= j <= cs.len(),
            start == i + 2,
            t == cs@.skip(i as int),
            s == t.skip(2),
            forall|k: int| start <= k < j ==> is_digit(#[trigger] cs@[k]),
        decreases cs.len() - j,
    {
        j = j + 1;
    }
    let d = j - start;
    proof {
        lemma_digit_run(s);
        assert forall|k: int| 0 <= k < d implies is_digit(#[trigger] s[k]) by {
            assert(s[k] == cs@[start + k]);
        }
        if digit_run(s) < d {
            assert(is_digit(s[digit_run(s) as int]));
        }
        if digit_run(s) > d {
            assert(is_digit(s[d as int]));
            assert(s[d as int] == cs@[j as int]);
        }
        assert(digit_run(s) == d);
    }
    let ghost ds = t.subrange(2, 2 + d as int);
    if d == 0 || j >= cs.len() || cs[j] != '}' || (d > 1 && cs[start] == '0') {
        proof {
            if d > 0 && j < cs.len() {
                assert(t[2 + d] == cs@[j as int]);
                assert(ds[0] == cs@[start as int]);
            }
        }
        return None;
    }
    proof {
        assert(t[2 + d] == cs@[j as int]);
        assert(ds[0] == cs@[start as int]);
    }
    let mut v: usize = 0;
    let mut k: usize = start;
    while k < j
        invariant
            start <= k <= j,
            j < cs.len(),
            start == i + 2,
            d == j - start,
            ds == t.subrange(2, 2 + d as int),
            t == cs@.skip(i as int),
            s == t.skip(2),
            digit_run(s) == d,
            d > 0,
            2 + d < t.len(),
            t[2 + d] == '}',
            d == 1 || ds[0] != '0',
            forall|q: int| start <= q < j ==> is_digit(#[trigger] cs@[q]),
            v == digits_value(ds.take(k - start)),
        decreases j - k,
    {
        let c = cs[k];
        proof {
            assert(is_digit(cs@[k as int]));
            lemma_digit_round_trip(c);
            assert(ds.take(k - start + 1).drop_last() =~= ds.take(k - start));
            assert(ds.take(k - start + 1).last() == c);
        }
        let dv = (c as u32 - '0' as u32) as usize;
        let ghost next = ds.take(k - start + 1);
        proof {
            assert(dv == digit_value(c));
            assert(digits_value(next) == v * 10 + dv);
            lemma_digits_value_grows(ds, (k - start + 1) as nat);
        }
        match v.checked_mul(10) {
            Some(m) => match m.checked_add(dv) {
                Some(w) => {
                    v = w;
                },
                None => {
                    return None;
                },
            },
            None => {
                proof {
                    assert(v * 10 + dv >= v * 10);
                }
                return None;
            },
        }
        k = k + 1;
    }
    proof {
        assert(ds.take(d as int) =~= ds);
    }
    Some((v, d + 3))
}

/// A numeral is worth at least as much as any of its prefixes.
proof fn lemma_digits_value_grows(ds: Seq<char>, m: nat)
    requires
        m <= ds.len(),
    ensures
        digits_value(ds.take(m as int)) <= digits_value(ds),
    decreases ds.len() - m,
{
    if m < ds.len() {
        lemma_digits_value_grows(ds, m + 1);
        assert(ds.take(m + 1 as int).drop_last() =~= ds.take(m as int));
    } else {
        assert(ds.take(m as int) =~= ds);
    }
}

impl Translation {
    /// Reads `text` as literal runs and `{:N}` placeholders, or fails with
    /// [`TranslationError::Parse`] when a `{:` opens no well-formed marker.
    pub fn parse(text: &str) -> (r: Result<Translation, TranslationError>)
        ensures
            match r {
                Ok(d) => parse_segments(text@) == Some(d@),
                Err(e) => parse_segments(text@) is None && e == TranslationError::Parse,
            },
    {
        let cs = chars_of(text);
        let n = cs.len();
        let mut segs: Vec<Segment> = Vec::new();
        let mut lit = String::new();
        let mut i: usize = 0;
        proof {
            assert(cs@.skip(0) =~= cs@);
            assert(segments_view(segs@) =~= Seq::<SegmentView>::empty());
            match parse_segments(cs@) {
                Some(r) => {
                    assert(segments_view(segs@) + attach(lit@, r) =~= r);
                },
                None => {},
            }
        }
        while i < n
            invariant
                n == cs.len(),
                cs@ == text@,
                i <= n,
                match parse_segments(cs@.skip(i as int)) {
                    Some(r) => parse_segments(cs@) == Some(
                        segments_view(segs@) + attach(lit@, r),
                    ),
                    None => parse_segments(cs@) is None,
                },
            decreases n - i,
        {
            let ghost t = cs@.skip(i as int);
            if i + 1 < n && cs[i] == '{' && cs[i + 1] == ':' {
                match read_marker(&cs, i) {
                    None => {
                        return Err(TranslationError::Parse);
                    },
                    Some((k, len)) => {
                        proof {
                            assert(t.skip(len as int) =~= cs@.skip(i + len));
                            match parse_segments(cs@.skip(i + len)) {
                                Some(r) => {
                                    let lv = lit@;
                                    let ph = seq![SegmentView::Placeholder(k)];
                                    if lv.len() > 0 {
                                        assert(attach(lv, ph + r) =~= seq![
                                            SegmentView::Literal(lv),
                                        ] + ph + r);
                                    }
                                },
                                None => {},
                            }
                        }
                        let ghost old_segs = segs@;
                        let ghost lv = lit@;
                        if !lit.as_str().is_empty() {
                            segs.push(Segment::Literal(lit));
                            lit = String::new();
                        }
                        segs.push(Segment::Placeholder(k));
                        proof {
                            if lv.len() > 0 {
                                assert(segments_view(segs@) =~= segments_view(old_segs) + seq![
                                    SegmentView::Literal(lv),
                                    SegmentView::Placeholder(k),
                                ]);
                            } else {
                                assert(segments_view(segs@) =~= segments_view(old_segs) + seq![
                                    SegmentView::Placeholder(k),
                                ]);
                            }
                            match parse_segments(cs@.skip(i + len)) {
                                Some(r) => {
                                    assert(segments_view(old_segs) + attach(
                                        lv,
                                        seq![SegmentView::Placeholder(k)] + r,
                                    ) =~= segments_view(segs@) + attach(lit@, r));
                                },
                                None => {},
                            }
                        }
                        i = i + len;
                    },
                }
            } else {
                let c = cs[i];
                proof {
                    assert(t.skip(1) =~= cs@.skip(i + 1));
                    match parse_segments(cs@.skip(i + 1)) {
                        Some(r) => {
                            lemma_attach_prepend(lit@, c, r);
                        },
                        None => {},
                    }
                }
                push_char(&mut lit, c);
                i = i + 1;
            }
        }
        proof {
            assert(cs@.skip(n as int) =~= Seq::<char>::empty());
        }
        let ghost before = segs@;
        if !lit.as_str().is_empty() {
            let ghost lv = lit@;
            segs.push(Segment::Literal(lit));
            proof {
                assert(segments_view(segs@) =~= segments_view(before) + attach(
                    lv,
                    Seq::empty(),
                ));
            }
        } else {
            proof {
                assert(segments_view(segs@) =~= segments_view(before) + attach(
                    lit@,
                    Seq::empty(),
                ));
            }
        }
        Ok(Translation { segments: segs })
    }
}

// ---------------------------------------------------------------------------
// Filling a template with runtime arguments
// ---------------------------------------------------------------------------

/// The placeholder indices of a segment sequence, in order.
pub open spec fn placeholder_indices(segs: Seq<SegmentView>) -> Seq<usize>
    decreases segs.len(),
{
    if segs.len() == 0 {
        Seq::empty()
    } else {
        match segs[0] {
            SegmentView::Literal(_) => placeholder_indices(segs.drop_first()),
            SegmentView::Placeholder(n) => seq![n] + placeholder_indices(segs.drop_first()),
        }
    }
}

/// Fits `t` to the segments `skel`: the text that each placeholder stands
/// for, in order, such that writing `skel` out with those texts gives `t`.
/// Each placeholder takes the shortest text that lets the rest of `skel`
/// fit the rest of `t`. `None` when no choice of texts fits.
pub open spec fn captures(skel: Seq<SegmentView>, t: Seq<char>) -> Option<Seq<Seq<char>>>
    decreases skel.len(), t.len() + 2,
{
    if skel.len() == 0 {
        if t.len() == 0 {
            Some(Seq::empty())
        } else {
            None
        }
    } else {
        match skel[0] {
            SegmentView::Literal(l) => if l.len() <= t.len() && t.take(l.len() as int) =~= l {
                captures(skel.drop_first(), t.skip(l.len() as int))
            } else {
                None
            },
            SegmentView::Placeholder(_) => match fit_from(skel.drop_first(), t, 0) {
                Some((k, c)) => Some(seq![t.take(k)] + c),
                None => None,
            },
        }
    }
}

/// The shortest length `k`, at least `from`, such that `rest` fits what
/// follows the first `k` characters of `t`, with that fit.
pub open spec fn fit_from(rest: Seq<SegmentView>, t: Seq<char>, from: int) -> Option<(int, Seq<Seq<char>>)>
    decreases rest.len() + 1, t.len() - from + 1,
{
    if from < 0 || from > t.len() {
        None
    } else {
        match captures(rest, t.skip(from)) {
            Some(c) => Some((from, c)),
            None => fit_from(rest, t, from + 1),
        }
    }
}

/// The template `tmpl` written out with its placeholders replaced, in
/// order, by the texts of `args`.
pub open spec fn render(tmpl: Seq<SegmentView>, args: Seq<Seq<char>>) -> Seq<char>
    decreases tmpl.len(),
{
    if tmpl.len() == 0 {
        Seq::empty()
    } else {
        match tmpl[0] {
            SegmentView::Literal(l) => l + render(tmpl.drop_first(), args),
            SegmentView::Placeholder(_) => if args.len() > 0 {
                args[0] + render(tmpl.drop_first(), args.drop_first())
            } else {
                render(tmpl.drop_first(), args)
            },
        }
    }
}

/// The template `tmpl` filled with the runtime arguments of `t`: `t` is fitted
/// to the source `skel` as [`captures`] does, and each placeholder of `tmpl`
/// takes the argument of the placeholder of `skel` in the same position.
/// `None` when `t` does not fit `skel`, or when `tmpl` does not use the
/// placeholders of `skel` in the same number and order.
pub open spec fn fill(tmpl: Seq<SegmentView>, skel: Seq<SegmentView>, t: Seq<char>) -> Option<Seq<char>> {
    if placeholder_indices(tmpl) == placeholder_indices(skel) {
        match captures(skel, t) {
            Some(args) => Some(render(tmpl, args)),
            None => None,
        }
    } else {
        None
    }
}

pub open spec fn args_view(c: Seq<Vec<char>>) -> Seq<Seq<char>> {
    c.map_values(|v: Vec<char>| v@)
}

/// Whether `pat` occurs in `cs` at position `p`.
fn matches_at(cs: &Vec<char>, p: usize, pat: &Vec<char>) -> (r: bool)
    requires
        p <= cs.len(),
    ensures
        r == (p + pat.len() <= cs.len() && cs@.subrange(p as int, p + pat.len()) =~= pat@),
{
    if pat.len() > cs.len() - p {
        return false;
    }
    let mut k: usize = 0;
    while k < pat.len()
        invariant
            p + pat.len() <= cs.len(),
            k <= pat.len(),
            forall|q: int| 0 <= q < k ==> cs@[p + q] == pat@[q],
        decreases pat.len() - k,
    {
        if cs[p + k] != pat[k] {
            assert(cs@.subrange(p as int, p + pat.len())[k as int] != pat@[k as int]);
            return false;
        }
        k = k + 1;
    }
    assert(cs@.subrange(p as int, p + pat.len()) =~= pat@);
    true
}

/// The characters of `cs` from `from` up to `to`.
fn sub_chars(cs: &Vec<char>, from: usize, to: usize) -> (r: Vec<char>)
    requires
        from <= to <= cs.len(),
    ensures
        r@ == cs@.subrange(from as int, to as int),
{
    let mut v: Vec<char> = Vec::new();
    let mut k: usize = from;
    while k < to
        invariant
            from <= k <= to <= cs.len(),
            v@ == cs@.subrange(from as int, k as int),
        decreases to - k,
    {
        v.push(cs[k]);
        assert(v@ =~= cs@.subrange(from as int, k + 1));
        k = k + 1;
    }
    v
}

/// Fits `cs[p..]` to the segments `skel[j..]`, as [`captures`] does.
fn capture_from(skel: &Vec<Segment>, j: usize, cs: &Vec<char>, p: usize) -> (r: Option<Vec<Vec<char>>>)
    requires
        j <= skel.len(),
        p <= cs.len(),
    ensures
        match r {
            Some(c) => captures(segments_view(skel@).skip(j as int), cs@.skip(p as int)) == Some(
                args_view(c@),
            ),
            None => captures(segments_view(skel@).skip(j as int), cs@.skip(p as int)) is None,
        },
    decreases skel.len() - j,
{
    let ghost sv = segments_view(skel@);
    let ghost t = cs@.skip(p as int);
    let n = cs.len();
    if j == skel.len() {
        proof {
            assert(sv.skip(j as int).len() == 0);
        }
        if p == n {
            let c: Vec<Vec<char>> = Vec::new();
            assert(args_view(c@) =~= Seq::<Seq<char>>::empty());
            return Some(c);
        } else {
            return None;
        }
    }
    let ghost rest = sv.skip(j + 1);
    proof {
        assert(sv.skip(j as int).drop_first() =~= rest);
        assert(sv.skip(j as int)[0] == skel@[j as int]@);
    }
    match &skel[j] {
        Segment::Literal(l) => {
            let lc = chars_of(l.as_str());
            if !matches_at(cs, p, &lc) {
                proof {
                    if lc.len() <= t.len() {
                        assert(t.take(lc.len() as int) =~= cs@.subrange(p as int, p + lc.len()));
                    }
                }
                return None;
            }
            proof {
                assert(t.take(lc.len() as int) =~= cs@.subrange(p as int, p + lc.len()));
                assert(t.skip(lc.len() as int) =~= cs@.skip(p + lc.len()));
            }
            capture_from(skel, j + 1, cs, p + lc.len())
        },
        Segment::Placeholder(_) => {
            let mut q: usize = p;
            let ghost whole = match fit_from(rest, t, 0) {
                Some((k, c)) => Some(seq![t.take(k)] + c),
                None => None,
            };
            proof {
                assert(t.skip(0) =~= t);
                assert(captures(sv.skip(j as int), t) == whole);
            }
            loop
                invariant
                    p <= q <= n,
                    n == cs.len(),
                    j < skel.len(),
                    sv == segments_view(skel@),
                    rest == sv.skip(j + 1),
                    t == cs@.skip(p as int),
                    fit_from(rest, t, 0) == fit_from(rest, t, q - p),
                    captures(sv.skip(j as int), t) == whole,
                    whole == match fit_from(rest, t, 0) {
                        Some((k, c)) => Some(seq![t.take(k)] + c),
                        None => None,
                    },
                decreases n - q,
            {
                proof {
                    assert(t.skip(q - p) =~= cs@.skip(q as int));
                }
                match capture_from(skel, j + 1, cs, q) {
                    Some(mut c) => {
                        let ghost tail = args_view(c@);
                        let piece = sub_chars(cs, p, q);
                        c.insert(0, piece);
                        proof {
                            assert(t.take(q - p) =~= piece@);
                            assert(args_view(c@) =~= seq![piece@] + tail);
                        }
                        return Some(c);
                    },
                    None => {},
                }
                if q == n {
                    proof {
                        assert(fit_from(rest, t, q - p + 1) is None);
                    }
                    return None;
                }
                q = q + 1;
            }
        },
    }
}

/// The placeholder indices of `segs`, in order.
fn indices_of(segs: &Vec<Segment>) -> (r: Vec<usize>)
    ensures
        r@ == placeholder_indices(segments_view(segs@)),
{
    let ghost sv = segments_view(segs@);
    let mut out: Vec<usize> = Vec::new();
    let mut j: usize = segs.len();
    proof {
        assert(sv.skip(j as int) =~= Seq::<SegmentView>::empty());
    }
    while j > 0
        invariant
            j <= segs.len(),
            sv == segments_view(segs@),
            out@ == placeholder_indices(sv.skip(j as int)),
        decreases j,
    {
        j = j - 1;
        proof {
            assert(sv.skip(j as int).drop_first() =~= sv.skip(j + 1));
            assert(sv.skip(j as int)[0] == segs@[j as int]@);
        }
        match &segs[j] {
            Segment::Literal(_) => {},
            Segment::Placeholder(n) => {
                out.insert(0, *n);
            },
        }
    }
    proof {
        assert(sv.skip(0) =~= sv);
    }
    out
}

/// Writes out `tmpl` with the texts of `args`, when `tmpl` uses the
/// placeholders `idx` in that number and order.
fn render_with(tmpl: &Vec<Segment>, idx: &Vec<usize>, args: &Vec<Vec<char>>) -> (r: Option<String>)
    requires
        args.len() == idx.len(),
    ensures
        match r {
            Some(s) => placeholder_indices(segments_view(tmpl@)) == idx@ && s@ == render(
                segments_view(tmpl@),
                args_view(args@),
            ),
            None => placeholder_indices(segments_view(tmpl@)) != idx@,
        },
{
    let ghost tv = segments_view(tmpl@);
    let ghost av = args_view(args@);
    let mut out = String::new();
    let mut a: usize = 0;
    proof {
        assert(tv.skip(0) =~= tv);
        assert(av.skip(0) =~= av);
        assert(idx@.take(0) + placeholder_indices(tv) =~= placeholder_indices(tv));
    }
    for j in 0..tmpl.len()
        invariant
            tv == segments_view(tmpl@),
            av == args_view(args@),
            args.len() == idx.len(),
            a <= idx.len(),
            placeholder_indices(tv) == idx@.take(a as int) + placeholder_indices(tv.skip(j as int)),
            render(tv, av) == out@ + render(tv.skip(j as int), av.skip(a as int)),
    {
        let ghost rest = tv.skip(j + 1);
        proof {
            assert(tv.skip(j as int).drop_first() =~= rest);
            assert(tv.skip(j as int)[0] == tmpl@[j as int]@);
        }
        match &tmpl[j] {
            Segment::Literal(l) => {
                let ghost before = out@;
                out.append(l.as_str());
                assert(before + (l@ + render(rest, av.skip(a as int))) =~= out@ + render(
                    rest,
                    av.skip(a as int),
                ));
            },
            Segment::Placeholder(n) => {
                if a >= idx.len() || idx[a] != *n {
                    proof {
                        let pi = placeholder_indices(tv);
                        assert(pi[a as int] == *n);
                        if a >= idx.len() {
                            assert(pi.len() > idx@.len());
                        }
                    }
                    return None;
                }
                let ghost before = out@;
                push_chars(&mut out, args[a].as_slice());
                proof {
                    assert(av.skip(a as int)[0] == args@[a as int]@);
                    assert(av.skip(a as int).drop_first() =~= av.skip(a + 1));
                    assert(idx@.take(a as int) + (seq![*n] + placeholder_indices(rest)) =~= idx@.take(
                        a + 1,
                    ) + placeholder_indices(rest));
                    assert(before + (args@[a as int]@ + render(rest, av.skip(a + 1))) =~= out@
                        + render(rest, av.skip(a + 1)));
                }
                a = a + 1;
            },
        }
    }
    proof {
        assert(tv.skip(tmpl.len() as int) =~= Seq::<SegmentView>::empty());
        assert(out@ + Seq::<char>::empty() =~= out@);
        assert(idx@.take(a as int) + Seq::<usize>::empty() =~= idx@.take(a as int));
        if a < idx.len() {
            assert(idx@.take(a as int).len() != idx@.len());
        } else {
            assert(idx@.take(a as int) =~= idx@);
        }
    }
    if a == idx.len() {
        Some(out)
    } else {
        None
    }
}

/// Every fit gives one argument per placeholder.
proof fn lemma_captures_len(skel: Seq<SegmentView>, t: Seq<char>)
    requires
        captures(skel, t) is Some,
    ensures
        captures(skel, t)->0.len() == placeholder_indices(skel).len(),
    decreases skel.len(), t.len() + 2,
{
    if skel.len() > 0 {
        match skel[0] {
            SegmentView::Literal(l) => {
                lemma_captures_len(skel.drop_first(), t.skip(l.len() as int));
            },
            SegmentView::Placeholder(_) => {
                lemma_fit_from_len(skel.drop_first(), t, 0);
            },
        }
    }
}

proof fn lemma_fit_from_len(rest: Seq<SegmentView>, t: Seq<char>, from: int)
    requires
        fit_from(rest, t, from) is Some,
    ensures
        (fit_from(rest, t, from)->0).1.len() == placeholder_indices(rest).len(),
    decreases rest.len() + 1, t.len() - from + 1,
{
    if 0 <= from <= t.len() {
        if captures(rest, t.skip(from)) is Some {
            lemma_captures_len(rest, t.skip(from));
        } else {
            lemma_fit_from_len(rest, t, from + 1);
        }
    }
}

fn same_segment(a: &Segment, b: &Segment) -> (r: bool)
    ensures
        r == (a@ == b@),
{
    match (a, b) {
        (Segment::Literal(x), Segment::Literal(y)) => x.eq(y),
        (Segment::Placeholder(m), Segment::Placeholder(n)) => m == n,
        _ => false,
    }
}

impl Translation {
    /// Reads a text of a source record; see [`Translation::parse`].
    pub fn from(text: &str) -> (r: Result<Translation, TranslationError>)
        ensures
            match r {
                Ok(d) => parse_segments(text@) == Some(d@),
                Err(e) => parse_segments(text@) is None && e == TranslationError::Parse,
            },
    {
        Translation::parse(text)
    }

    /// Reads a text of a source record; see [`Translation::parse`].
    pub fn from_text(text: &str) -> (r: Result<Translation, TranslationError>)
        ensures
            match r {
                Ok(d) => parse_segments(text@) == Some(d@),
                Err(e) => parse_segments(text@) is None && e == TranslationError::Parse,
            },
    {
        Translation::parse(text)
    }

    /// Reads a cell of a dictionary file; see [`Translation::parse`].
    pub fn from_def(text: &str) -> (r: Result<Translation, TranslationError>)
        ensures
            match r {
                Ok(d) => parse_segments(text@) == Some(d@),
                Err(e) => parse_segments(text@) is None && e == TranslationError::Parse,
            },
    {
        Translation::parse(text)
    }

    /// The flat text: literals verbatim, placeholders written `{:N}`.
    pub fn to_text(&self) -> (r: String)
        ensures
            r@ == text_of(self@),
    {
        let ghost sv = self@;
        let mut s = String::new();
        proof {
            assert(sv.take(0) =~= Seq::<SegmentView>::empty());
        }
        for i in 0..self.segments.len()
            invariant
                sv == self@,
                sv == segments_view(self.segments@),
                s@ == text_of(sv.take(i as int)),
        {
            proof {
                assert(sv.take(i + 1) =~= sv.take(i as int).push(self.segments@[i as int]@));
                lemma_text_of_push(sv.take(i as int), self.segments@[i as int]@);
            }
            match &self.segments[i] {
                Segment::Literal(l) => {
                    s.append(l.as_str());
                },
                Segment::Placeholder(n) => {
                    push_char(&mut s, '{');
                    push_char(&mut s, ':');
                    push_decimal(&mut s, *n);
                    push_char(&mut s, '}');
                    assert(s@ =~= text_of(sv.take(i as int)) + marker_text(*n));
                },
            }
        }
        proof {
            assert(sv.take(self.segments.len() as int) =~= sv);
        }
        s
    }

    /// A copy holding the same segments.
    pub fn duplicate(&self) -> (r: Translation)
        ensures
            r@ == self@,
    {
        let mut segs: Vec<Segment> = Vec::new();
        for i in 0..self.segments.len()
            invariant
                segs@.len() == i,
                forall|k: int| 0 <= k < i ==> (#[trigger] segs@[k])@ == self.segments@[k]@,
        {
            let g = match &self.segments[i] {
                Segment::Literal(l) => Segment::Literal(l.clone()),
                Segment::Placeholder(n) => Segment::Placeholder(*n),
            };
            segs.push(g);
        }
        let r = Translation { segments: segs };
        assert(r@ =~= self@);
        r
    }

    /// Whether both hold the same segments.
    pub fn same_as(&self, other: &Translation) -> (r: bool)
        ensures
            r == (self@ == other@),
    {
        if self.segments.len() != other.segments.len() {
            assert(self@.len() != other@.len());
            return false;
        }
        let mut i: usize = 0;
        while i < self.segments.len()
            invariant
                i <= self.segments.len() == other.segments.len(),
                forall|k: int| 0 <= k < i ==> self@[k] == other@[k],
            decreases self.segments.len() - i,
        {
            if !same_segment(&self.segments[i], &other.segments[i]) {
                assert(self@[i as int] != other@[i as int]);
                return false;
            }
            i = i + 1;
        }
        assert(self@ =~= other@);
        true
    }

    /// Whether `text` fits this translation: some texts put in place of its
    /// placeholders make it `text`.
    pub fn fits(&self, text: &str) -> (r: bool)
        ensures
            r == captures(self@, text@) is Some,
    {
        let cs = chars_of(text);
        proof {
            assert(self@.skip(0) =~= self@);
            assert(cs@.skip(0) =~= cs@);
        }
        capture_from(&self.segments, 0, &cs, 0).is_some()
    }

    /// Fills this template with the runtime arguments of `text`.
    ///
    /// `text` is fitted to `source`, the source text this template translates:
    /// each literal of `source` must occur verbatim, and each placeholder takes
    /// the shortest text that lets the rest fit. The result is this template
    /// with its literals as stored and its placeholders replaced, in order, by
    /// those arguments. Fails with [`TranslationError::Mismatch`] when `text`
    /// does not fit `source`, or when this template does not use the
    /// placeholders of `source` in the same number and order.
    pub fn translate(&self, source: &Translation, text: &str) -> (r: Result<
        String,
        TranslationError,
    >)
        ensures
            match r {
                Ok(s) => fill(self@, source@, text@) == Some(s@),
                Err(e) => fill(self@, source@, text@) is None && e == TranslationError::Mismatch,
            },
    {
        let cs = chars_of(text);
        proof {
            assert(source@.skip(0) =~= source@);
            assert(cs@.skip(0) =~= cs@);
        }
        let idx = indices_of(&source.segments);
        match capture_from(&source.segments, 0, &cs, 0) {
            Some(args) => {
                proof {
                    lemma_captures_len(source@, text@);
                }
                match render_with(&self.segments, &idx, &args) {
                    Some(s) => Ok(s),
                    None => Err(TranslationError::Mismatch),
                }
            },
            None => Err(TranslationError::Mismatch),
        }
    }
}

} // verus!
