//! The dictionary: source translations mapped to optional destination
//! translations.
use vstd::prelude::*;

use crate::assoc::{
    assoc, keys_unique, lemma_assoc_absent, lemma_assoc_key, lemma_assoc_len, lemma_assoc_unique,
    lemma_assoc_update, lemma_first_failure, lemma_map_all_step, map_all, first_failure,
};
use crate::records::{
    extract, read_records, row_view, rows_view, same_key, tsv_records, Extractor,
};
use crate::translation::{captures, fill, parse_segments, text_of, SegmentView, Translation};

verus! {

/// A translation in mathematical terms.
pub type TextView = Seq<SegmentView>;

/// What a dictionary holds: each source translation, with its destination
/// translation or `None` when none is known yet.
pub type DictMap = Map<TextView, Option<TextView>>;

pub type Entry = (Translation, Option<Translation>);

pub open spec fn opt_view(o: Option<Translation>) -> Option<TextView> {
    match o {
        Some(t) => Some(t@),
        None => None,
    }
}

pub open spec fn entries_view(s: Seq<Entry>) -> Seq<(TextView, Option<TextView>)> {
    s.map_values(|e: Entry| (e.0@, opt_view(e.1)))
}

/// Why a dictionary could not be built.
#[derive(Clone, Copy, Debug, PartialEq, Eq)]
pub enum DictError {
    /// The records could not be read: the record reader refused the text
    /// (`None`), or the record at this position, counting from zero, has the
    /// wrong number of fields or holds a malformed placeholder.
    Parse(Option<usize>),
    /// Reserved for failures of no other kind.
    Unknown,
}

/// A localization dictionary. Keys are unique; inserting a key that is
/// already present replaces its value.
pub struct Dict {
    entries: Vec<Entry>,
}

impl View for Dict {
    type V = DictMap;

    closed spec fn view(&self) -> DictMap {
        assoc(entries_view(self.entries@))
    }
}

/// Whether `r` is a swap of `d`: its keys are the values present in `d`, and
/// each maps to one of the keys that carry it in `d`.
pub open spec fn swapped(d: DictMap, r: DictMap) -> bool {
    &&& forall|v: TextView| #[trigger]
        r.contains_key(v) <==> exists|k: TextView| d.contains_key(k) && d[k] == Some(v)
    &&& forall|v: TextView| #[trigger]
        r.contains_key(v) ==> exists|k: TextView| d.contains_key(k) && d[k] == Some(v) && r[v] == Some(
            k,
        )
}

/// Where `key` stands in `entries`.
fn position(entries: &Vec<Entry>, key: &Translation) -> (r: Option<usize>)
    ensures
        match r {
            Some(i) => i < entries.len() && entries@[i as int].0@ == key@,
            None => forall|j: int| 0 <= j < entries.len() ==> entries@[j].0@ != key@,
        },
{
    let mut i: usize = 0;
    while i < entries.len()
        invariant
            i <= entries.len(),
            forall|j: int| 0 <= j < i ==> entries@[j].0@ != key@,
        decreases entries.len() - i,
    {
        if entries[i].0.same_as(key) {
            return Some(i);
        }
        i = i + 1;
    }
    None
}

/// Sets `key` to `value`, replacing the value it had.
fn put(entries: &mut Vec<Entry>, key: Translation, value: Option<Translation>)
    requires
        keys_unique(entries_view(old(entries)@)),
    ensures
        keys_unique(entries_view(final(entries)@)),
        assoc(entries_view(final(entries)@)) == assoc(entries_view(old(entries)@)).insert(
            key@,
            opt_view(value),
        ),
{
    let ghost ev = entries_view(entries@);
    let ghost kv = key@;
    let ghost vv = opt_view(value);
    match position(entries, &key) {
        Some(i) => {
            entries.set(i, (key, value));
            proof {
                assert(entries_view(entries@) =~= ev.update(i as int, (ev[i as int].0, vv)));
                lemma_assoc_update(ev, i as int, vv);
            }
        },
        None => {
            entries.push((key, value));
            proof {
                let nv = entries_view(entries@);
                assert(nv =~= ev.push((kv, vv)));
                assert(nv.drop_last() =~= ev);
            }
        },
    }
}

impl Dict {
    #[verifier::type_invariant]
    spec fn keys_are_unique(self) -> bool {
        keys_unique(entries_view(self.entries@))
    }

    /// An empty dictionary.
    pub fn new() -> (r: Dict)
        ensures
            r@ == Map::<TextView, Option<TextView>>::empty(),
    {
        let r = Dict { entries: Vec::new() };
        assert(entries_view(r.entries@) =~= Seq::empty());
        r
    }

    /// The number of keys.
    pub fn len(&self) -> (r: usize)
        ensures
            r == self@.len(),
    {
        proof {
            use_type_invariant(self);
            lemma_assoc_len(entries_view(self.entries@));
        }
        self.entries.len()
    }

    /// The value of `key`, when `key` is present.
    pub fn get(&self, key: &Translation) -> (r: Option<&Option<Translation>>)
        ensures
            match r {
                Some(v) => self@.contains_key(key@) && self@[key@] == opt_view(*v),
                None => !self@.contains_key(key@),
            },
    {
        proof {
            use_type_invariant(self);
        }
        let ghost ev = entries_view(self.entries@);
        match position(&self.entries, key) {
            Some(i) => {
                proof {
                    lemma_assoc_unique(ev, i as int);
                }
                Some(&self.entries[i].1)
            },
            None => {
                proof {
                    lemma_assoc_absent(ev, key@);
                }
                None
            },
        }
    }

    /// Sets `key` to `value`, replacing the value it had.
    pub fn insert(self, key: Translation, value: Option<Translation>) -> (r: Dict)
        ensures
            r@ == self@.insert(key@, opt_view(value)),
    {
        proof {
            use_type_invariant(&self);
        }
        let mut entries = self.entries;
        put(&mut entries, key, value);
        Dict { entries }
    }

    /// The entries, each key once, in no particular order.
    pub fn into_entries(self) -> (r: Vec<Entry>)
        ensures
            keys_unique(entries_view(r@)),
            assoc(entries_view(r@)) == self@,
    {
        proof {
            use_type_invariant(&self);
        }
        self.entries
    }

    /// Both dictionaries in one; where both hold a key, `other`'s value wins.
    pub fn merge(self, other: Dict) -> (r: Dict)
        ensures
            r@ == self@.union_prefer_right(other@),
    {
        proof {
            use_type_invariant(&self);
            use_type_invariant(&other);
        }
        let ghost ov = entries_view(other.entries@);
        let ghost base = self@;
        let mut entries = self.entries;
        proof {
            assert(ov.take(0) =~= Seq::<(TextView, Option<TextView>)>::empty());
            assert(base.union_prefer_right(Map::empty()) =~= base);
        }
        for e in it: other.entries.into_iter()
            invariant
                ov == entries_view(it.seq()),
                it.index() <= ov.len(),
                keys_unique(entries_view(entries@)),
                assoc(entries_view(entries@)) == base.union_prefer_right(
                    assoc(ov.take(it.index() as int)),
                ),
        {
            let ghost i = it.index() as int;
            proof {
                assert(ov.take(i + 1).drop_last() =~= ov.take(i));
                assert(ov[i] == (e.0@, opt_view(e.1)));
            }
            put(&mut entries, e.0, e.1);
            proof {
                assert(base.union_prefer_right(assoc(ov.take(i))).insert(ov[i].0, ov[i].1)
                    =~= base.union_prefer_right(assoc(ov.take(i + 1))));
            }
        }
        proof {
            assert(ov.take(ov.len() as int) =~= ov);
        }
        Dict { entries }
    }

    /// Each present value becomes a key whose value is a key that carried
    /// it; entries without a value are dropped. Where several keys carry the
    /// same value, one of them is kept.
    pub fn swap(self) -> (r: Dict)
        ensures
            swapped(self@, r@),
    {
        proof {
            use_type_invariant(&self);
        }
        let ghost ov = entries_view(self.entries@);
        let ghost d = self@;
        let mut entries: Vec<Entry> = Vec::new();
        proof {
            assert(entries_view(entries@) =~= Seq::empty());
        }
        for e in it: self.entries.into_iter()
            invariant
                ov == entries_view(it.seq()),
                d == assoc(ov),
                keys_unique(ov),
                it.index() <= ov.len(),
                keys_unique(entries_view(entries@)),
                forall|v: TextView| #[trigger]
                    assoc(entries_view(entries@)).contains_key(v) <==> exists|j: int|
                        0 <= j < it.index() && ov[j].1 == Some(v),
                forall|v: TextView| #[trigger]
                    assoc(entries_view(entries@)).contains_key(v) ==> exists|j: int|
                        0 <= j < it.index() && ov[j].1 == Some(v) && assoc(entries_view(entries@))[v]
                            == Some(ov[j].0),
        {
            let ghost i = it.index() as int;
            let ghost before = assoc(entries_view(entries@));
            proof {
                assert(ov[i] == (e.0@, opt_view(e.1)));
            }
            let (k, v) = e;
            match v {
                Some(v) => {
                    let ghost kv = k@;
                    let ghost vv = v@;
                    put(&mut entries, v, Some(k));
                    proof {
                        let now = assoc(entries_view(entries@));
                        assert(now == before.insert(vv, Some(kv)));
                        assert forall|w: TextView| #[trigger]
                            now.contains_key(w) <==> exists|j: int|
                                0 <= j < i + 1 && ov[j].1 == Some(w) by {
                            if w != vv && now.contains_key(w) {
                                assert(before.contains_key(w));
                            }
                            if exists|j: int| 0 <= j < i + 1 && ov[j].1 == Some(w) {
                                if w != vv {
                                    let j = choose|j: int| 0 <= j < i + 1 && ov[j].1 == Some(w);
                                    assert(j < i);
                                    assert(before.contains_key(w));
                                }
                            }
                        }
                        assert forall|w: TextView| #[trigger]
                            now.contains_key(w) implies exists|j: int|
                                0 <= j < i + 1 && ov[j].1 == Some(w) && now[w] == Some(ov[j].0) by {
                            if w == vv {
                                assert(ov[i].1 == Some(w) && now[w] == Some(ov[i].0));
                            } else {
                                assert(before.contains_key(w));
                                let j = choose|j: int|
                                    0 <= j < i && ov[j].1 == Some(w) && before[w] == Some(ov[j].0);
                                assert(now[w] == before[w]);
                            }
                        }
                    }
                },
                None => {
                    proof {
                        assert forall|w: TextView| #[trigger]
                            before.contains_key(w) <==> exists|j: int|
                                0 <= j < i + 1 && ov[j].1 == Some(w) by {
                            if exists|j: int| 0 <= j < i + 1 && ov[j].1 == Some(w) {
                                let j = choose|j: int| 0 <= j < i + 1 && ov[j].1 == Some(w);
                                assert(j != i);
                            }
                        }
                        assert forall|w: TextView| #[trigger]
                            before.contains_key(w) implies exists|j: int|
                                0 <= j < i + 1 && ov[j].1 == Some(w) && before[w] == Some(ov[j].0) by {
                            let j = choose|j: int|
                                0 <= j < i && ov[j].1 == Some(w) && before[w] == Some(ov[j].0);
                        }
                    }
                },
            }
        }
        let r = Dict { entries };
        proof {
            let m = r@;
            assert forall|v: TextView| #[trigger]
                m.contains_key(v) <==> exists|k: TextView| d.contains_key(k) && d[k] == Some(v) by {
                if m.contains_key(v) {
                    let j = choose|j: int| 0 <= j < ov.len() && ov[j].1 == Some(v);
                    lemma_assoc_unique(ov, j);
                    assert(d.contains_key(ov[j].0) && d[ov[j].0] == Some(v));
                }
                if exists|k: TextView| d.contains_key(k) && d[k] == Some(v) {
                    let k = choose|k: TextView| d.contains_key(k) && d[k] == Some(v);
                    lemma_assoc_key(ov, k);
                    let j = choose|j: int| 0 <= j < ov.len() && ov[j].0 == k;
                    lemma_assoc_unique(ov, j);
                    assert(ov[j].1 == Some(v));
                }
            }
            assert forall|v: TextView| #[trigger]
                m.contains_key(v) implies exists|k: TextView|
                    d.contains_key(k) && d[k] == Some(v) && m[v] == Some(k) by {
                let j = choose|j: int| 0 <= j < ov.len() && ov[j].1 == Some(v) && m[v] == Some(ov[j].0);
                lemma_assoc_unique(ov, j);
                assert(d.contains_key(ov[j].0) && d[ov[j].0] == Some(v));
            }
        }
        r
    }
}

// ---------------------------------------------------------------------------
// Building from records
// ---------------------------------------------------------------------------

/// A record's fields, in mathematical terms.
pub type RowView = Seq<Seq<char>>;

/// The entry of a dictionary record: its first field parsed as the key, its
/// second as the value, `None` when that field is empty. `None` overall when
/// the record does not have two fields or a field holds a malformed
/// placeholder.
pub open spec fn dict_row(row: RowView) -> Option<(TextView, Option<TextView>)> {
    if row.len() != 2 {
        None
    } else {
        match parse_segments(row[0]) {
            Some(k) => if row[1].len() == 0 {
                Some((k, None))
            } else {
                match parse_segments(row[1]) {
                    Some(v) => Some((k, Some(v))),
                    None => None,
                }
            },
            None => None,
        }
    }
}

pub open spec fn dict_row_fn() -> spec_fn(RowView) -> Option<(TextView, Option<TextView>)> {
    |row: RowView| dict_row(row)
}

/// The dictionary that dictionary records describe, later records winning.
pub open spec fn dict_of_rows(rows: Seq<RowView>) -> Option<DictMap> {
    match map_all(rows, dict_row_fn()) {
        Some(es) => Some(assoc(es)),
        None => None,
    }
}

/// The extraction key and parsed text of a source record.
pub open spec fn source_entry(key_columns: usize, row: RowView) -> Option<(RowView, TextView)> {
    match extract(key_columns, row) {
        Some((k, t)) => match parse_segments(t) {
            Some(d) => Some((k, d)),
            None => None,
        },
        None => None,
    }
}

pub open spec fn source_entry_fn(key_columns: usize) -> spec_fn(RowView) -> Option<(RowView, TextView)> {
    |row: RowView| source_entry(key_columns, row)
}

/// The extraction keys and parsed texts of source records, in order.
pub open spec fn source_entries(key_columns: usize, rows: Seq<RowView>) -> Option<Seq<(RowView, TextView)>> {
    map_all(rows, source_entry_fn(key_columns))
}

/// The dictionary of source records alone: the text of the last record of
/// each extraction key, with no value.
pub open spec fn source_dict(key_columns: usize, rows: Seq<RowView>) -> Option<DictMap> {
    match source_entries(key_columns, rows) {
        Some(es) => Some(assoc(es).values().mk_map(|d: TextView| None::<TextView>)),
        None => None,
    }
}

/// Each source entry's text, with the destination text of the same
/// extraction key (the last such destination record) as its value.
pub open spec fn joined(src: Seq<(RowView, TextView)>, dst: Seq<(RowView, TextView)>) -> Seq<
    (TextView, Option<TextView>),
> {
    src.map_values(
        |e: (RowView, TextView)|
            (e.1, if assoc(dst).contains_key(e.0) {
                Some(assoc(dst)[e.0])
            } else {
                None
            }),
    )
}

/// The dictionary that joins source records to destination records on their
/// extraction keys, later source records winning.
pub open spec fn joined_dict(key_columns: usize, src: Seq<RowView>, dst: Seq<RowView>) -> Option<DictMap> {
    match (source_entries(key_columns, src), source_entries(key_columns, dst)) {
        (Some(s), Some(d)) => Some(assoc(joined(s, d))),
        _ => None,
    }
}

/// What the entry of key `k` makes of the runtime text `t`: its value
/// filled with the arguments of `t`, `t` itself when filling fails, and the
/// empty text when the entry has no value.
pub open spec fn outcome(m: DictMap, k: TextView, t: Seq<char>) -> Seq<char> {
    match m[k] {
        Some(v) => match fill(v, k, t) {
            Some(s) => s,
            None => t,
        },
        None => Seq::empty(),
    }
}

/// Whether `out` is what a dictionary makes of the runtime text `t`, whose
/// parse is `d`: the outcome of the entry of `d` when `d` is a key; otherwise
/// the outcome of one of the keys that `t` fits, when there is one;
/// otherwise the empty text.
pub open spec fn translated(m: DictMap, d: TextView, t: Seq<char>, out: Seq<char>) -> bool {
    if m.contains_key(d) {
        out == outcome(m, d, t)
    } else if exists|k: TextView| #[trigger] m.contains_key(k) && captures(k, t) is Some {
        exists|k: TextView|
            #[trigger] m.contains_key(k) && captures(k, t) is Some && out == outcome(m, k, t)
    } else {
        out == Seq::<char>::empty()
    }
}

/// Whether record `i` is the first of `rows` that has the wrong number of
/// fields or holds a malformed placeholder.
pub open spec fn bad_record(key_columns: usize, rows: Seq<RowView>, i: int) -> bool {
    first_failure(rows, source_entry_fn(key_columns), i)
}

/// What building from dictionary records returns: the dictionary they
/// describe, or the position of the first record that describes no entry.
pub open spec fn built_from_dict(rows: Seq<RowView>, r: Result<Dict, DictError>) -> bool {
    match r {
        Ok(d) => dict_of_rows(rows) == Some(d@),
        Err(e) => dict_of_rows(rows) is None && (e matches DictError::Parse(Some(i))
            && first_failure(rows, dict_row_fn(), i as int)),
    }
}

/// What building from source records returns: the dictionary of their
/// texts, or the position of the first bad record.
pub open spec fn built_from_src(key_columns: usize, rows: Seq<RowView>, r: Result<Dict, DictError>) -> bool {
    match r {
        Ok(d) => source_dict(key_columns, rows) == Some(d@),
        Err(e) => source_dict(key_columns, rows) is None && (e matches DictError::Parse(Some(i))
            && bad_record(key_columns, rows, i as int)),
    }
}

/// What joining source records to destination records returns: the joined
/// dictionary, or the position of the first bad source record, or when
/// there is none, of the first bad destination record.
pub open spec fn built_from_src_dst(
    key_columns: usize,
    src: Seq<RowView>,
    dst: Seq<RowView>,
    r: Result<Dict, DictError>,
) -> bool {
    match r {
        Ok(d) => joined_dict(key_columns, src, dst) == Some(d@),
        Err(e) => joined_dict(key_columns, src, dst) is None && (e matches DictError::Parse(Some(i))
            && if source_entries(key_columns, src) is None {
            bad_record(key_columns, src, i as int)
        } else {
            bad_record(key_columns, dst, i as int)
        }),
    }
}

/// What translating source records returns: for each record, in order, its
/// extraction key and what [`translated`] gives for its text; or the
/// position of the first bad record.
pub open spec fn translated_rows(
    m: DictMap,
    key_columns: usize,
    rows: Seq<RowView>,
    r: Result<Vec<(Vec<String>, String)>, DictError>,
) -> bool {
    match r {
        Ok(v) => source_entries(key_columns, rows) matches Some(es) && v@.len() == es.len() && (
        forall|i: int|
            0 <= i < es.len() ==> row_view(#[trigger] v@[i].0) == es[i].0 && translated(
                m,
                es[i].1,
                text_of(es[i].1),
                v@[i].1@,
            )),
        Err(e) => source_entries(key_columns, rows) is None && (e matches DictError::Parse(Some(i))
            && bad_record(key_columns, rows, i as int)),
    }
}

pub type Keyed = (Vec<String>, Translation);

pub open spec fn keyed_view(s: Seq<Keyed>) -> Seq<(RowView, TextView)> {
    s.map_values(|e: Keyed| (row_view(e.0), e.1@))
}


/// The extraction key and parsed text of each record, in order.
fn source_pairs(rows: &Vec<Vec<String>>, ex: &Extractor) -> (r: Result<Vec<Keyed>, DictError>)
    ensures
        match r {
            Ok(v) => source_entries(ex.key_columns, rows_view(rows@)) == Some(keyed_view(v@)),
            Err(e) => source_entries(ex.key_columns, rows_view(rows@)) is None && (e matches DictError::Parse(
                Some(i),
            ) && bad_record(ex.key_columns, rows_view(rows@), i as int)),
        },
{
    let ghost rv = rows_view(rows@);
    let ghost f = source_entry_fn(ex.key_columns);
    let mut out: Vec<Keyed> = Vec::new();
    proof {
        assert(rv.take(0) =~= Seq::<RowView>::empty());
        assert(keyed_view(out@) =~= Seq::empty());
    }
    for i in 0..rows.len()
        invariant
            rv == rows_view(rows@),
            f == source_entry_fn(ex.key_columns),
            map_all(rv.take(i as int), f) == Some(keyed_view(out@)),
    {
        proof {
            lemma_map_all_step(rv, f, i as int);
            assert(rv[i as int] == row_view(rows@[i as int]));
        }
        let (k, t) = match ex.extract(&rows[i]) {
            Some(p) => p,
            None => {
                proof {
                    lemma_first_failure(rv, f, i as int);
                }
                return Err(DictError::Parse(Some(i)));
            },
        };
        let d = match Translation::from_text(t.as_str()) {
            Ok(d) => d,
            Err(_) => {
                proof {
                    lemma_first_failure(rv, f, i as int);
                }
                return Err(DictError::Parse(Some(i)));
            },
        };
        let ghost before = out@;
        out.push((k, d));
        proof {
            assert(keyed_view(out@) =~= keyed_view(before).push((row_view(k), d@)));
        }
    }
    proof {
        assert(rv.take(rows.len() as int) =~= rv);
    }
    Ok(out)
}

/// Where `key` stands in `pairs`.
fn position_key(pairs: &Vec<Keyed>, key: &Vec<String>) -> (r: Option<usize>)
    ensures
        match r {
            Some(i) => i < pairs.len() && row_view(pairs@[i as int].0) == row_view(*key),
            None => forall|j: int| 0 <= j < pairs.len() ==> row_view(pairs@[j].0) != row_view(*key),
        },
{
    let mut i: usize = 0;
    while i < pairs.len()
        invariant
            i <= pairs.len(),
            forall|j: int| 0 <= j < i ==> row_view(pairs@[j].0) != row_view(*key),
        decreases pairs.len() - i,
    {
        if same_key(&pairs[i].0, key) {
            return Some(i);
        }
        i = i + 1;
    }
    None
}

/// One pair per key: the last of `pairs` that carries it.
fn last_by_key(pairs: Vec<Keyed>) -> (r: Vec<Keyed>)
    ensures
        keys_unique(keyed_view(r@)),
        assoc(keyed_view(r@)) == assoc(keyed_view(pairs@)),
{
    let ghost pv = keyed_view(pairs@);
    let mut out: Vec<Keyed> = Vec::new();
    proof {
        assert(pv.take(0) =~= Seq::<(RowView, TextView)>::empty());
        assert(keyed_view(out@) =~= Seq::empty());
    }
    for e in it: pairs.into_iter()
        invariant
            pv == keyed_view(it.seq()),
            it.index() <= pv.len(),
            keys_unique(keyed_view(out@)),
            assoc(keyed_view(out@)) == assoc(pv.take(it.index() as int)),
    {
        let ghost i = it.index() as int;
        let ghost ov = keyed_view(out@);
        proof {
            assert(pv.take(i + 1).drop_last() =~= pv.take(i));
            assert(pv[i] == (row_view(e.0), e.1@));
        }
        let (k, d) = e;
        match position_key(&out, &k) {
            Some(j) => {
                out.set(j, (k, d));
                proof {
                    assert(keyed_view(out@) =~= ov.update(j as int, (ov[j as int].0, pv[i].1)));
                    lemma_assoc_update(ov, j as int, pv[i].1);
                }
            },
            None => {
                out.push((k, d));
                proof {
                    assert(keyed_view(out@) =~= ov.push(pv[i]));
                    assert(keyed_view(out@).drop_last() =~= ov);
                }
            },
        }
    }
    proof {
        assert(pv.take(pv.len() as int) =~= pv);
    }
    out
}

impl Dict {
    /// Builds a dictionary from dictionary records: the first field of each
    /// is a key, the second its value, with an empty field for no value.
    /// Fails when a record has the wrong number of fields or holds a malformed placeholder.
    pub fn from_dict_rows(rows: &Vec<Vec<String>>) -> (r: Result<Dict, DictError>)
        ensures
            built_from_dict(rows_view(rows@), r),
    {
        let ghost rv = rows_view(rows@);
        let ghost f = dict_row_fn();
        let mut entries: Vec<Entry> = Vec::new();
        proof {
            assert(rv.take(0) =~= Seq::<RowView>::empty());
            assert(entries_view(entries@) =~= Seq::empty());
        }
        for i in 0..rows.len()
            invariant
                rv == rows_view(rows@),
                f == dict_row_fn(),
                map_all(rv.take(i as int), f) is Some,
                keys_unique(entries_view(entries@)),
                assoc(entries_view(entries@)) == assoc(map_all(rv.take(i as int), f)->0),
        {
            proof {
                lemma_map_all_step(rv, f, i as int);
                assert(rv[i as int] == row_view(rows@[i as int]));
            }
            let row = &rows[i];
            if row.len() != 2 {
                proof {
                    lemma_first_failure(rv, f, i as int);
                }
                return Err(DictError::Parse(Some(i)));
            }
            let key = match Translation::from_def(row[0].as_str()) {
                Ok(k) => k,
                Err(_) => {
                    proof {
                        lemma_first_failure(rv, f, i as int);
                    }
                    return Err(DictError::Parse(Some(i)));
                },
            };
            let value = if row[1].as_str().is_empty() {
                None
            } else {
                match Translation::from_def(row[1].as_str()) {
                    Ok(v) => Some(v),
                    Err(_) => {
                        proof {
                            lemma_first_failure(rv, f, i as int);
                        }
                        return Err(DictError::Parse(Some(i)));
                    },
                }
            };
            proof {
                assert(rv[i as int][0] == row@[0]@);
                assert(rv[i as int][1] == row@[1]@);
                assert(f(rv[i as int]) == Some((key@, opt_view(value))));
                let es = map_all(rv.take(i as int), f)->0;
                let e = (key@, opt_view(value));
                assert(es.push(e).drop_last() =~= es);
                assert(assoc(es.push(e)) == assoc(es).insert(e.0, e.1));
            }
            put(&mut entries, key, value);
        }
        proof {
            assert(rv.take(rows.len() as int) =~= rv);
        }
        Ok(Dict { entries })
    }

    /// Builds a dictionary from the text of a dictionary file; see
    /// [`Dict::from_dict_rows`].
    pub fn from_dict(dict: &str) -> (r: Result<Dict, DictError>)
        ensures
            match tsv_records(dict@) {
                Some(rows) => built_from_dict(rows, r),
                None => r matches Err(DictError::Parse(None)),
            },
    {
        match read_records(dict) {
            Ok(rows) => Dict::from_dict_rows(&rows),
            Err(_) => Err(DictError::Parse(None)),
        }
    }

    /// Builds a dictionary from source records alone: the text of the last
    /// record of each extraction key becomes a key with no value. Fails when
    /// a record has the wrong number of fields or holds a malformed placeholder.
    pub fn from_src_rows(rows: &Vec<Vec<String>>, ex: &Extractor) -> (r: Result<Dict, DictError>)
        ensures
            built_from_src(ex.key_columns, rows_view(rows@), r),
    {
        let pairs = match source_pairs(rows, ex) {
            Ok(p) => p,
            Err(e) => {
                return Err(e);
            },
        };
        let ghost es = keyed_view(pairs@);
        let keyed = last_by_key(pairs);
        let ghost kv = keyed_view(keyed@);
        let mut entries: Vec<Entry> = Vec::new();
        proof {
            assert(entries_view(entries@) =~= Seq::empty());
            assert(assoc(entries_view(entries@)) =~= Map::new(
                |d: TextView| exists|j: int| 0 <= j < 0 && kv[j].1 == d,
                |d: TextView| None::<TextView>,
            ));
        }
        for e in it: keyed.into_iter()
            invariant
                kv == keyed_view(it.seq()),
                it.index() <= kv.len(),
                keys_unique(entries_view(entries@)),
                assoc(entries_view(entries@)) == Map::new(
                    |d: TextView| exists|j: int| 0 <= j < it.index() && kv[j].1 == d,
                    |d: TextView| None::<TextView>,
                ),
        {
            let ghost i = it.index() as int;
            let ghost before = assoc(entries_view(entries@));
            proof {
                assert(kv[i].1 == e.1@);
            }
            put(&mut entries, e.1, None);
            proof {
                assert(assoc(entries_view(entries@)) =~= Map::new(
                    |d: TextView| exists|j: int| 0 <= j < i + 1 && kv[j].1 == d,
                    |d: TextView| None::<TextView>,
                )) by {
                    assert forall|d: TextView|
                        (exists|j: int| 0 <= j < i + 1 && kv[j].1 == d) implies (d == kv[i].1
                        || before.contains_key(d)) by {
                        let j = choose|j: int| 0 <= j < i + 1 && kv[j].1 == d;
                        if j < i {
                            assert(exists|j: int| 0 <= j < i && kv[j].1 == d);
                        }
                    }
                }
            }
        }
        let r = Dict { entries };
        proof {
            let m = assoc(es);
            assert(m == assoc(kv));
            assert forall|d: TextView| #[trigger] m.values().contains(d) <==> exists|j: int|
                0 <= j < kv.len() && kv[j].1 == d by {
                if m.values().contains(d) {
                    let k = choose|k: RowView| m.contains_key(k) && m[k] == d;
                    lemma_assoc_key(kv, k);
                    let j = choose|j: int| 0 <= j < kv.len() && kv[j].0 == k;
                    lemma_assoc_unique(kv, j);
                }
                if exists|j: int| 0 <= j < kv.len() && kv[j].1 == d {
                    let j = choose|j: int| 0 <= j < kv.len() && kv[j].1 == d;
                    lemma_assoc_unique(kv, j);
                    assert(m.contains_key(kv[j].0) && m[kv[j].0] == d);
                }
            }
            assert(r@ =~= m.values().mk_map(|d: TextView| None::<TextView>));
        }
        Ok(r)
    }

    /// Builds a dictionary from the text of a source file; see
    /// [`Dict::from_src_rows`].
    pub fn from_src(src: &str, ex: &Extractor) -> (r: Result<Dict, DictError>)
        ensures
            match tsv_records(src@) {
                Some(rows) => built_from_src(ex.key_columns, rows, r),
                None => r matches Err(DictError::Parse(None)),
            },
    {
        match read_records(src) {
            Ok(rows) => Dict::from_src_rows(&rows, ex),
            Err(_) => Err(DictError::Parse(None)),
        }
    }

    /// Builds a dictionary that joins source records to destination records
    /// on their extraction keys: the text of every source record becomes a
    /// key, whose value is the text of the last destination record with the
    /// same extraction key, or `None` when there is none. Fails when a record
    /// of either side has the wrong number of fields or holds a malformed
    /// placeholder.
    pub fn from_src_dst_rows(
        src: &Vec<Vec<String>>,
        dst: &Vec<Vec<String>>,
        ex: &Extractor,
    ) -> (r: Result<Dict, DictError>)
        ensures
            built_from_src_dst(ex.key_columns, rows_view(src@), rows_view(dst@), r),
    {
        let src_pairs = match source_pairs(src, ex) {
            Ok(p) => p,
            Err(e) => {
                return Err(e);
            },
        };
        let dst_pairs = match source_pairs(dst, ex) {
            Ok(p) => p,
            Err(e) => {
                return Err(e);
            },
        };
        let ghost sv = keyed_view(src_pairs@);
        let ghost dv = keyed_view(dst_pairs@);
        let targets = last_by_key(dst_pairs);
        let ghost tv = keyed_view(targets@);
        let ghost js = joined(sv, dv);
        let mut entries: Vec<Entry> = Vec::new();
        proof {
            assert(entries_view(entries@) =~= Seq::empty());
            assert(js.take(0) =~= Seq::<(TextView, Option<TextView>)>::empty());
        }
        for e in it: src_pairs.into_iter()
            invariant
                sv == keyed_view(it.seq()),
                js == joined(sv, dv),
                js.len() == sv.len(),
                it.index() <= sv.len(),
                keys_unique(tv),
                tv == keyed_view(targets@),
                assoc(tv) == assoc(dv),
                keys_unique(entries_view(entries@)),
                assoc(entries_view(entries@)) == assoc(js.take(it.index() as int)),
        {
            let ghost i = it.index() as int;
            proof {
                assert(js.take(i + 1).drop_last() =~= js.take(i));
                assert(sv[i] == (row_view(e.0), e.1@));
            }
            let (k, d) = e;
            let value = match position_key(&targets, &k) {
                Some(j) => {
                    proof {
                        lemma_assoc_unique(tv, j as int);
                    }
                    Some(targets[j].1.duplicate())
                },
                None => {
                    proof {
                        lemma_assoc_absent(tv, row_view(k));
                    }
                    None
                },
            };
            assert(js[i] == (d@, opt_view(value)));
            put(&mut entries, d, value);
        }
        proof {
            assert(js.take(sv.len() as int) =~= js);
        }
        Ok(Dict { entries })
    }

    /// Builds a dictionary from the texts of a source file and a destination
    /// file; see [`Dict::from_src_dst_rows`].
    pub fn from_src_dst(src: &str, dst: &str, ex: &Extractor) -> (r: Result<Dict, DictError>)
        ensures
            match (tsv_records(src@), tsv_records(dst@)) {
                (Some(s), Some(t)) => built_from_src_dst(ex.key_columns, s, t, r),
                _ => r matches Err(DictError::Parse(None)),
            },
    {
        let src_rows = match read_records(src) {
            Ok(rows) => rows,
            Err(_) => {
                return Err(DictError::Parse(None));
            },
        };
        let dst_rows = match read_records(dst) {
            Ok(rows) => rows,
            Err(_) => {
                return Err(DictError::Parse(None));
            },
        };
        Dict::from_src_dst_rows(&src_rows, &dst_rows, ex)
    }

    /// What the entry at `i` makes of the runtime text `text`.
    fn outcome_at(&self, i: usize, text: &String) -> (r: String)
        requires
            i < self.entries.len(),
        ensures
            r@ == outcome(self@, self.entries@[i as int].0@, text@),
    {
        proof {
            use_type_invariant(self);
            lemma_assoc_unique(entries_view(self.entries@), i as int);
        }
        match &self.entries[i].1 {
            Some(v) => match v.translate(&self.entries[i].0, text.as_str()) {
                Ok(s) => s,
                Err(_) => text.clone(),
            },
            None => String::new(),
        }
    }

    /// What this dictionary makes of the runtime text `text`, whose parse is
    /// `d`, as [`translated`] says.
    fn translate_text(&self, d: &Translation, text: &String) -> (r: String)
        ensures
            translated(self@, d@, text@, r@),
    {
        proof {
            use_type_invariant(self);
        }
        let ghost ev = entries_view(self.entries@);
        match position(&self.entries, d) {
            Some(i) => {
                proof {
                    lemma_assoc_unique(ev, i as int);
                }
                return self.outcome_at(i, text);
            },
            None => {
                proof {
                    lemma_assoc_absent(ev, d@);
                }
            },
        }
        for i in 0..self.entries.len()
            invariant
                ev == entries_view(self.entries@),
                keys_unique(ev),
                !self@.contains_key(d@),
                forall|j: int| 0 <= j < i ==> captures(ev[j].0, text@) is None,
        {
            if self.entries[i].0.fits(text.as_str()) {
                let r = self.outcome_at(i, text);
                proof {
                    lemma_assoc_unique(ev, i as int);
                    assert(self@.contains_key(ev[i as int].0));
                }
                return r;
            }
        }
        proof {
            assert forall|k: TextView| #[trigger] self@.contains_key(k) implies !(captures(
                k,
                text@,
            ) is Some) by {
                lemma_assoc_key(ev, k);
            }
        }
        String::new()
    }

    /// Translates source records: for each, in order, its extraction key and
    /// what [`translated`] gives for its text. Fails when a record has the
    /// wrong number of fields or holds a malformed placeholder.
    pub fn translate_rows(&self, rows: &Vec<Vec<String>>, ex: &Extractor) -> (r: Result<
        Vec<(Vec<String>, String)>,
        DictError,
    >)
        ensures
            translated_rows(self@, ex.key_columns, rows_view(rows@), r),
    {
        let pairs = match source_pairs(rows, ex) {
            Ok(p) => p,
            Err(e) => {
                return Err(e);
            },
        };
        let ghost es = keyed_view(pairs@);
        let mut out: Vec<(Vec<String>, String)> = Vec::new();
        for e in it: pairs.into_iter()
            invariant
                es == keyed_view(it.seq()),
                it.index() <= es.len(),
                out@.len() == it.index(),
                forall|i: int|
                    0 <= i < it.index() ==> row_view(#[trigger] out@[i].0) == es[i].0 && translated(
                        self@,
                        es[i].1,
                        text_of(es[i].1),
                        out@[i].1@,
                    ),
        {
            let ghost i = it.index() as int;
            let (k, d) = e;
            proof {
                assert(es[i] == (row_view(k), d@));
            }
            let text = d.to_text();
            let result = self.translate_text(&d, &text);
            out.push((k, result));
        }
        Ok(out)
    }

    /// Translates the records of a source file; see [`Dict::translate_rows`].
    pub fn translate(&self, src: &str, ex: &Extractor) -> (r: Result<
        Vec<(Vec<String>, String)>,
        DictError,
    >)
        ensures
            match tsv_records(src@) {
                Some(rows) => translated_rows(self@, ex.key_columns, rows, r),
                None => r matches Err(DictError::Parse(None)),
            },
    {
        match read_records(src) {
            Ok(rows) => self.translate_rows(&rows, ex),
            Err(_) => Err(DictError::Parse(None)),
        }
    }
}

// ---------------------------------------------------------------------------
// Laws
// ---------------------------------------------------------------------------

/// The entries of `d` that have a value.
pub open spec fn with_value(d: DictMap) -> DictMap {
    Map::new(|k: TextView| d.contains_key(k) && d[k] is Some, |k: TextView| d[k])
}

/// Whether no two keys of `d` carry the same value.
pub open spec fn values_distinct(d: DictMap) -> bool {
    forall|k1: TextView, k2: TextView|
        #![trigger d[k1], d[k2]]
        d.contains_key(k1) && d.contains_key(k2) && d[k1] is Some && d[k1] == d[k2] ==> k1 == k2
}

/// Swapping twice keeps exactly the entries that had a value, when no two
/// keys share a value (where two do, the second swap keeps only one of them).
pub proof fn lemma_swap_twice(d: DictMap, once: DictMap, twice: DictMap)
    requires
        values_distinct(d),
        swapped(d, once),
        swapped(once, twice),
    ensures
        twice == with_value(d),
{
    // What `once` maps a value back to is the key that carries it.
    assert forall|v: TextView, k: TextView|
        once.contains_key(k) && once[k] == Some(v) implies d.contains_key(v) && d[v] == Some(k) by {
        let w = choose|w: TextView| d.contains_key(w) && d[w] == Some(k) && once[k] == Some(w);
        assert(w == v);
    }
    assert forall|v: TextView| #[trigger] twice.contains_key(v) <==> with_value(d).contains_key(v) by {
        if twice.contains_key(v) {
            let k = choose|k: TextView| once.contains_key(k) && once[k] == Some(v);
        }
        if with_value(d).contains_key(v) {
            let k = d[v]->0;
            assert(once.contains_key(k));
            let w = choose|w: TextView| d.contains_key(w) && d[w] == Some(k) && once[k] == Some(w);
            assert(d[w] == d[v]);
            assert(w == v);
        }
    }
    assert forall|v: TextView| #[trigger] twice.contains_key(v) implies twice[v] == with_value(
        d,
    )[v] by {
        let k = choose|k: TextView| once.contains_key(k) && once[k] == Some(v) && twice[v] == Some(k);
    }
    assert(twice =~= with_value(d));
}

/// Merging two dictionaries without a common key gives the same dictionary
/// in either order.
pub proof fn lemma_merge_disjoint_commutes(a: DictMap, b: DictMap)
    requires
        a.dom().disjoint(b.dom()),
    ensures
        a.union_prefer_right(b) == b.union_prefer_right(a),
{
    assert forall|k: TextView| a.contains_key(k) implies !b.contains_key(k) by {
        assert(a.dom().contains(k));
    }
    assert(a.union_prefer_right(b) =~= b.union_prefer_right(a));
}

} // verus!
