use crate::date::months_between;
use crate::date::Date;
use crate::extract::annotations;
use crate::extract::collect_dates_from_file;
use crate::extract::date_phrase_matches;
use crate::extract::numbered;
use crate::extract::well_ordered;
use vstd::prelude::*;
use vstd::string::StringSliceAdditionalSpecFns;
use vstd::utf8::encode_utf8;

verus! {

/// Byte-wise lexicographic order, as `str` orders its values.
pub open spec fn lex_less(a: Seq<u8>, b: Seq<u8>) -> bool
    decreases a.len(),
{
    if b.len() == 0 {
        false
    } else if a.len() == 0 {
        true
    } else if a[0] != b[0] {
        a[0] < b[0]
    } else {
        lex_less(a.drop_first(), b.drop_first())
    }
}

/// The order of paths: by their UTF-8 bytes.
#[verifier::opaque]
pub open spec fn path_lt(a: Seq<char>, b: Seq<char>) -> bool {
    lex_less(encode_utf8(a), encode_utf8(b))
}

/// No byte string is below itself.
pub proof fn lemma_lex_irreflexive(a: Seq<u8>)
    ensures
        !lex_less(a, a),
    decreases a.len(),
{
    if a.len() > 0 {
        lemma_lex_irreflexive(a.drop_first());
    }
}

/// The byte order is transitive.
pub proof fn lemma_lex_transitive(a: Seq<u8>, b: Seq<u8>, c: Seq<u8>)
    requires
        lex_less(a, b),
        lex_less(b, c),
    ensures
        lex_less(a, c),
    decreases a.len(),
{
    if a.len() > 0 && a[0] == b[0] && b[0] == c[0] {
        lemma_lex_transitive(a.drop_first(), b.drop_first(), c.drop_first());
    }
}

/// Of two different byte strings, one is below the other.
pub proof fn lemma_lex_total(a: Seq<u8>, b: Seq<u8>)
    requires
        a != b,
    ensures
        lex_less(a, b) || lex_less(b, a),
    decreases a.len(),
{
    if a.len() > 0 && b.len() > 0 && a[0] == b[0] {
        if a.drop_first() == b.drop_first() {
            assert(a =~= seq![a[0]] + a.drop_first());
            assert(b =~= seq![b[0]] + b.drop_first());
        }
        lemma_lex_total(a.drop_first(), b.drop_first());
    } else if a.len() == 0 && b.len() == 0 {
        assert(a =~= b);
    }
}

/// Of two different paths, one comes first.
pub proof fn lemma_path_total(a: Seq<char>, b: Seq<char>)
    requires
        a != b,
    ensures
        path_lt(a, b) || path_lt(b, a),
{
    reveal(path_lt);
    vstd::utf8::encode_utf8_decode_utf8(a);
    vstd::utf8::encode_utf8_decode_utf8(b);
    lemma_lex_total(encode_utf8(a), encode_utf8(b));
}

/// The path order is transitive.
pub proof fn lemma_path_transitive(a: Seq<char>, b: Seq<char>, c: Seq<char>)
    requires
        path_lt(a, b),
        path_lt(b, c),
    ensures
        path_lt(a, c),
{
    reveal(path_lt);
    lemma_lex_transitive(encode_utf8(a), encode_utf8(b), encode_utf8(c));
}

/// Compares two paths by their bytes.
pub fn path_less(a: &str, b: &str) -> (r: bool)
    ensures
        r == path_lt(a@, b@),
{
    let x = a.as_bytes();
    let y = b.as_bytes();
    let mut i: usize = 0;
    assert(x@.skip(0) =~= x@);
    assert(y@.skip(0) =~= y@);
    while i < x.len() && i < y.len() && x[i] == y[i]
        invariant
            x@ == a.spec_bytes(),
            y@ == b.spec_bytes(),
            i <= x@.len(),
            i <= y@.len(),
            lex_less(x@, y@) == lex_less(x@.skip(i as int), y@.skip(i as int)),
        decreases x.len() - i,
    {
        assert(x@.skip(i as int).drop_first() =~= x@.skip(i + 1));
        assert(y@.skip(i as int).drop_first() =~= y@.skip(i + 1));
        i = i + 1;
    }
    proof {
        reveal(path_lt);
    }
    if i == y.len() {
        false
    } else if i == x.len() {
        true
    } else {
        x[i] < y[i]
    }
}

/// The annotations of a document's text.
pub open spec fn file_annotations(text: Seq<char>) -> Seq<(int, Date)> {
    annotations(encode_utf8(text), date_phrase_matches(text))
}

/// Paths strictly increase along the sequence.
pub open spec fn sorted_by_path(v: Seq<(String, Vec<(usize, Date)>)>) -> bool {
    forall|i: int, j: int| 0 <= i < j < v.len() ==> path_lt(v[i].0@, v[j].0@)
}

/// No two documents share a path.
pub open spec fn distinct_paths(files: Seq<(String, String)>) -> bool {
    forall|i: int, j: int| 0 <= i < j < files.len() ==> files[i].0@ != files[j].0@
}

/// Entry `e` holds document `k` of `files` with its annotations, of which there is one at least.
#[verifier::opaque]
pub open spec fn holds_file(
    e: (String, Vec<(usize, Date)>),
    files: Seq<(String, String)>,
    k: int,
) -> bool {
    &&& e.0@ == files[k].0@
    &&& numbered(e.1@) == file_annotations(files[k].1@)
    &&& e.1@.len() > 0
}

/// Each entry of `v` holds one of the first `n` documents.
pub open spec fn entries_from(v: Seq<(String, Vec<(usize, Date)>)>, files: Seq<(String, String)>, n: int) -> bool {
    forall|j: int| 0 <= j < v.len() ==> #[trigger] held_among(v[j], files, n)
}

/// Entry `e` holds one of the first `n` documents.
pub open spec fn held_among(e: (String, Vec<(usize, Date)>), files: Seq<(String, String)>, n: int) -> bool {
    exists|q: int| 0 <= q < n && #[trigger] holds_file(e, files, q)
}

/// Document `q` is held by an entry of `v`.
pub open spec fn listed(v: Seq<(String, Vec<(usize, Date)>)>, files: Seq<(String, String)>, q: int) -> bool {
    exists|j: int| 0 <= j < v.len() && #[trigger] holds_file(v[j], files, q)
}

/// Each of the first `n` documents that has annotations is held by an entry of `v`.
pub open spec fn covers(v: Seq<(String, Vec<(usize, Date)>)>, files: Seq<(String, String)>, n: int) -> bool {
    forall|q: int|
        0 <= q < n && file_annotations(files[q].1@).len() > 0 ==> #[trigger] listed(v, files, q)
}

/// Inserting the entry of document `k` where the scan stopped keeps the entries ordered
/// and each entry the entry of a document.
proof fn lemma_insert_entry(
    old_out: Seq<(String, Vec<(usize, Date)>)>,
    entry: (String, Vec<(usize, Date)>),
    idx: int,
    files: Seq<(String, String)>,
    k: int,
)
    requires
        0 <= k < files.len(),
        0 <= idx <= old_out.len(),
        distinct_paths(files),
        sorted_by_path(old_out),
        holds_file(entry, files, k),
        forall|j: int| 0 <= j < idx ==> path_lt(old_out[j].0@, entry.0@),
        idx < old_out.len() ==> !path_lt(old_out[idx].0@, entry.0@),
        entries_from(old_out, files, k),
        covers(old_out, files, k),
    ensures
        sorted_by_path(old_out.insert(idx, entry)),
        entries_from(old_out.insert(idx, entry), files, k + 1),
        covers(old_out.insert(idx, entry), files, k + 1),
{
    old_out.insert_ensures(idx, entry);
    let out = old_out.insert(idx, entry);
    let path = entry.0;
    assert forall|j: int| idx <= j < old_out.len() implies path_lt(
        path@,
        #[trigger] old_out[j].0@,
    ) by {
        assert(held_among(old_out[idx], files, k));
        let q = choose|q: int| 0 <= q < k && holds_file(old_out[idx], files, q);
        reveal(holds_file);
        assert(files[q].0@ != files[k].0@);
        lemma_path_total(path@, old_out[idx].0@);
        if j > idx {
            assert(path_lt(old_out[idx].0@, old_out[j].0@));
            lemma_path_transitive(path@, old_out[idx].0@, old_out[j].0@);
        }
    }
    assert forall|a: int, b: int| 0 <= a < b < out.len() implies path_lt(
        out[a].0@,
        out[b].0@,
    ) by {
        if a < idx && b > idx {
            lemma_path_transitive(out[a].0@, path@, out[b].0@);
        }
    }
    assert forall|j: int| 0 <= j < out.len() implies #[trigger] held_among(out[j], files, k + 1) by {
        if j < idx {
            assert(held_among(old_out[j], files, k));
            let q = choose|q: int| 0 <= q < k && holds_file(old_out[j], files, q);
            assert(holds_file(out[j], files, q));
        } else if j > idx {
            let jj = j - 1;
            assert(held_among(old_out[jj], files, k));
            let q = choose|q: int| 0 <= q < k && holds_file(old_out[jj], files, q);
            assert(holds_file(out[j], files, q));
        } else {
            assert(holds_file(out[j], files, k));
        }
    }
    assert forall|q: int|
        0 <= q < k + 1 && file_annotations(files[q].1@).len() > 0 implies #[trigger] listed(out, files, q) by {
        if q < k {
            assert(listed(old_out, files, q));
            let j = choose|j: int| 0 <= j < old_out.len() && holds_file(old_out[j], files, q);
            if j < idx {
                assert(holds_file(out[j], files, q));
            } else {
                assert(holds_file(out[j + 1], files, q));
            }
        } else {
            assert(holds_file(out[idx], files, q));
        }
    }
}

/// Reads the annotations of each document and keeps the documents that have some,
/// ordered by path.
pub fn collect_dates(files: &Vec<(String, String)>) -> (r: Vec<(String, Vec<(usize, Date)>)>)
    requires
        distinct_paths(files@),
        forall|k: int| 0 <= k < files.len() ==> encode_utf8((#[trigger] files[k]).1@).len() < usize::MAX,
    ensures
        sorted_by_path(r@),
        forall|j: int| 0 <= j < r.len() ==> well_ordered((#[trigger] r@[j]).1@),
        entries_from(r@, files@, files.len() as int),
        covers(r@, files@, files.len() as int),
{
    let mut out: Vec<(String, Vec<(usize, Date)>)> = Vec::new();
    let mut k: usize = 0;
    while k < files.len()
        invariant
            k <= files.len(),
            distinct_paths(files@),
            forall|q: int| 0 <= q < files.len() ==> encode_utf8((#[trigger] files[q]).1@).len() < usize::MAX,
            sorted_by_path(out@),
            forall|j: int| 0 <= j < out.len() ==> well_ordered((#[trigger] out@[j]).1@),
            entries_from(out@, files@, k as int),
            covers(out@, files@, k as int),
        decreases files.len() - k,
    {
        let path = &files[k].0;
        let text = files[k].1.as_str();
        let dates = collect_dates_from_file(text);
        if dates.len() > 0 {
            let mut idx: usize = 0;
            while idx < out.len() && path_less(out[idx].0.as_str(), path.as_str())
                invariant
                    idx <= out.len(),
                    forall|j: int| 0 <= j < idx ==> path_lt(out@[j].0@, path@),
                decreases out.len() - idx,
            {
                idx = idx + 1;
            }
            let ghost old_out = out@;
            let entry = (path.clone(), dates);
            proof {
                reveal(holds_file);
                assert(holds_file(entry, files@, k as int));
                lemma_insert_entry(old_out, entry, idx as int, files@, k as int);
            }
            out.insert(idx, entry);
            proof {
                old_out.insert_ensures(idx as int, entry);
                assert forall|j: int| 0 <= j < out.len() implies well_ordered((#[trigger] out@[j]).1@) by {
                    if j > idx {
                        assert(out@[j] == old_out[j - 1]);
                    }
                }
            }
        } else {
            proof {
                assert forall|j: int| 0 <= j < out.len() implies #[trigger] held_among(
                    out@[j],
                    files@,
                    k + 1,
                ) by {
                    assert(held_among(out@[j], files@, k as int));
                    let q = choose|q: int| 0 <= q < k && holds_file(out@[j], files@, q);
                    assert(holds_file(out@[j], files@, q));
                }
            }
        }
        k = k + 1;
    }
    out
}

} // verus!

verus! {

/// The annotations of `ds` at least `min` months older than `cur`, in their order.
pub open spec fn stale_lines(cur: Date, min: int, ds: Seq<(int, Date)>) -> Seq<(int, Date)>
    decreases ds.len(),
{
    if ds.len() == 0 {
        seq![]
    } else {
        let rest = stale_lines(cur, min, ds.drop_last());
        if months_between(cur, ds.last().1) >= min {
            rest.push(ds.last())
        } else {
            rest
        }
    }
}

/// One more annotation is kept exactly when it is old enough.
proof fn lemma_stale_lines_step(cur: Date, min: int, s: Seq<(int, Date)>, t: int)
    requires
        0 <= t < s.len(),
    ensures
        stale_lines(cur, min, s.take(t + 1)) == if months_between(cur, s[t].1) >= min {
            stale_lines(cur, min, s.take(t)).push(s[t])
        } else {
            stale_lines(cur, min, s.take(t))
        },
{
    assert(s.take(t + 1).drop_last() =~= s.take(t));
    assert(s.take(t + 1).last() == s[t]);
}

/// Paths as text and line numbers as integers.
pub open spec fn entries_view(v: Seq<(String, Vec<(usize, Date)>)>) -> Seq<(Seq<char>, Seq<(int, Date)>)> {
    v.map_values(|e: (String, Vec<(usize, Date)>)| (e.0@, numbered(e.1@)))
}

/// Each document with its stale annotations, documents left with none dropped.
pub open spec fn stale_files(cur: Date, min: int, fs: Seq<(Seq<char>, Seq<(int, Date)>)>) -> Seq<
    (Seq<char>, Seq<(int, Date)>),
>
    decreases fs.len(),
{
    if fs.len() == 0 {
        seq![]
    } else {
        let rest = stale_files(cur, min, fs.drop_last());
        let kept = stale_lines(cur, min, fs.last().1);
        if kept.len() > 0 {
            rest.push((fs.last().0, kept))
        } else {
            rest
        }
    }
}

/// No date of the documents is later than `cur`, and each is a valid month.
pub open spec fn none_after(cur: Date, v: Seq<(String, Vec<(usize, Date)>)>) -> bool {
    forall|i: int, t: int|
        0 <= i < v.len() && 0 <= t < v[i].1@.len() ==> (#[trigger] v[i].1@[t]).1.wf() && !cur.before(
            v[i].1@[t].1,
        )
}

/// Keeps, in each document, the annotations at least `min_months_since` months older than
/// `current_month`, and drops the documents left with none.
pub fn filter_dates(
    current_month: Date,
    min_months_since: u32,
    dates_by_file: Vec<(String, Vec<(usize, Date)>)>,
) -> (r: Vec<(String, Vec<(usize, Date)>)>)
    requires
        current_month.wf(),
        none_after(current_month, dates_by_file@),
    ensures
        entries_view(r@) == stale_files(current_month, min_months_since as int, entries_view(dates_by_file@)),
        forall|j: int| 0 <= j < r.len() ==> (#[trigger] r@[j]).1@.len() > 0,
        sorted_by_path(dates_by_file@) ==> sorted_by_path(r@),
{
    let ghost min = min_months_since as int;
    let ghost input = entries_view(dates_by_file@);
    let mut out: Vec<(String, Vec<(usize, Date)>)> = Vec::new();
    let ghost mut srcs: Seq<int> = seq![];
    let mut i: usize = 0;
    while i < dates_by_file.len()
        invariant
            current_month.wf(),
            min == min_months_since as int,
            none_after(current_month, dates_by_file@),
            input == entries_view(dates_by_file@),
            i <= dates_by_file.len(),
            entries_view(out@) == stale_files(current_month, min, input.take(i as int)),
            forall|j: int| 0 <= j < out.len() ==> (#[trigger] out@[j]).1@.len() > 0,
            srcs.len() == out.len(),
            forall|j: int|
                0 <= j < out.len() ==> 0 <= #[trigger] srcs[j] < i && out@[j].0@
                    == dates_by_file@[srcs[j]].0@,
            forall|a: int, b: int| 0 <= a < b < out.len() ==> srcs[a] < srcs[b],
        decreases dates_by_file.len() - i,
    {
        let ds = &dates_by_file[i].1;
        let mut kept: Vec<(usize, Date)> = Vec::new();
        let mut t: usize = 0;
        while t < ds.len()
            invariant
                current_month.wf(),
                min == min_months_since as int,
                none_after(current_month, dates_by_file@),
                i < dates_by_file.len(),
                ds == dates_by_file@[i as int].1,
                t <= ds.len(),
                numbered(kept@) == stale_lines(current_month, min, numbered(ds@).take(t as int)),
            decreases ds.len() - t,
        {
            let entry = ds[t];
            assert(entry == dates_by_file@[i as int].1@[t as int]);
            assert(entry.1.wf() && !current_month.before(entry.1));
            let ghost prev = kept@;
            match current_month.months_since(entry.1) {
                Some(age) => {
                    proof {
                        assert(numbered(ds@)[t as int] == (entry.0 as int, entry.1));
                        lemma_stale_lines_step(current_month, min, numbered(ds@), t as int);
                    }
                    if age >= min_months_since {
                        kept.push(entry);
                        assert(numbered(kept@) =~= numbered(prev).push((entry.0 as int, entry.1)));
                    }
                },
                None => {
                    assert(false);
                },
            }
            t = t + 1;
        }
        proof {
            assert(numbered(ds@).take(ds.len() as int) =~= numbered(ds@));
            assert(input.take(i + 1).drop_last() =~= input.take(i as int));
            assert(input[i as int] == (dates_by_file@[i as int].0@, numbered(ds@)));
        }
        if kept.len() > 0 {
            let ghost prev = out@;
            out.push((dates_by_file[i].0.clone(), kept));
            proof {
                assert(entries_view(out@) =~= entries_view(prev).push(
                    (dates_by_file@[i as int].0@, numbered(kept@)),
                ));
                srcs = srcs.push(i as int);
            }
        }
        i = i + 1;
    }
    proof {
        assert(input.take(i as int) =~= input);
        if sorted_by_path(dates_by_file@) {
            assert forall|a: int, b: int| 0 <= a < b < out.len() implies path_lt(
                out@[a].0@,
                out@[b].0@,
            ) by {
                assert(srcs[a] < srcs[b]);
            }
        }
    }
    out
}

} // verus!

verus! {

/// Two listings name the same documents with the same texts.
pub open spec fn same_doc(x: (String, String), y: (String, String)) -> bool {
    x.0@ == y.0@ && x.1@ == y.1@
}

/// Every document of `a` is listed in `b`.
pub open spec fn listed_in(a: Seq<(String, String)>, b: Seq<(String, String)>) -> bool {
    forall|i: int|
        #![trigger a[i]]
        0 <= i < a.len() ==> exists|j: int| 0 <= j < b.len() && #[trigger] same_doc(a[i], b[j])
}

/// `x` is an element of `s`.
pub open spec fn occurs<T>(x: T, s: Seq<T>) -> bool {
    exists|k: int| 0 <= k < s.len() && s[k] == x
}

/// Paths strictly increase along the viewed entries.
pub open spec fn view_sorted(s: Seq<(Seq<char>, Seq<(int, Date)>)>) -> bool {
    forall|i: int, j: int| 0 <= i < j < s.len() ==> path_lt(s[i].0, s[j].0)
}

/// No path comes before itself.
pub proof fn lemma_path_irreflexive(a: Seq<char>)
    ensures
        !path_lt(a, a),
{
    reveal(path_lt);
    lemma_lex_irreflexive(encode_utf8(a));
}

proof fn lemma_view_sorted(r: Seq<(String, Vec<(usize, Date)>)>)
    requires
        sorted_by_path(r),
    ensures
        view_sorted(entries_view(r)),
{
}

/// Each entry collected from `files1` is also collected from `files2`, when `files2` lists
/// every document of `files1`.
proof fn lemma_entries_carry_over(
    files1: Seq<(String, String)>,
    files2: Seq<(String, String)>,
    r1: Seq<(String, Vec<(usize, Date)>)>,
    r2: Seq<(String, Vec<(usize, Date)>)>,
)
    requires
        listed_in(files1, files2),
        entries_from(r1, files1, files1.len() as int),
        covers(r2, files2, files2.len() as int),
    ensures
        forall|i: int| 0 <= i < r1.len() ==> occurs(#[trigger] entries_view(r1)[i], entries_view(r2)),
{
    let e1 = entries_view(r1);
    let e2 = entries_view(r2);
    assert forall|i: int| 0 <= i < r1.len() implies occurs(#[trigger] e1[i], e2) by {
        assert(held_among(r1[i], files1, files1.len() as int));
        let q1 = choose|q: int| 0 <= q < files1.len() && holds_file(r1[i], files1, q);
        let q2 = choose|j: int| 0 <= j < files2.len() && #[trigger] same_doc(files1[q1], files2[j]);
        reveal(holds_file);
        assert(file_annotations(files2[q2].1@).len() > 0);
        assert(listed(r2, files2, q2));
        let j = choose|j: int| 0 <= j < r2.len() && #[trigger] holds_file(r2[j], files2, q2);
        assert(e2[j] == e1[i]);
    }
}

/// Two sequences of entries, each strictly ordered by path and each holding the elements of
/// the other, are equal.
proof fn lemma_sorted_unique(
    a: Seq<(Seq<char>, Seq<(int, Date)>)>,
    b: Seq<(Seq<char>, Seq<(int, Date)>)>,
)
    requires
        view_sorted(a),
        view_sorted(b),
        forall|i: int| 0 <= i < a.len() ==> occurs(#[trigger] a[i], b),
        forall|i: int| 0 <= i < b.len() ==> occurs(#[trigger] b[i], a),
    ensures
        a == b,
    decreases a.len(),
{
    if a.len() == 0 {
        if b.len() > 0 {
            assert(occurs(b[0], a));
        }
        assert(a =~= b);
    } else if b.len() == 0 {
        assert(occurs(a[0], b));
    } else {
        assert(occurs(a[0], b));
        assert(occurs(b[0], a));
        let m = choose|k: int| 0 <= k < b.len() && b[k] == a[0];
        let n = choose|k: int| 0 <= k < a.len() && a[k] == b[0];
        if m > 0 && n > 0 {
            lemma_path_transitive(a[0].0, a[n].0, a[0].0);
            lemma_path_irreflexive(a[0].0);
        }
        assert(a[0] == b[0]);
        let a1 = a.drop_first();
        let b1 = b.drop_first();
        assert forall|i: int| 0 <= i < a1.len() implies occurs(#[trigger] a1[i], b1) by {
            assert(occurs(a[i + 1], b));
            let k = choose|k: int| 0 <= k < b.len() && b[k] == a[i + 1];
            if k == 0 {
                lemma_path_irreflexive(a[0].0);
            } else {
                assert(b1[k - 1] == a1[i]);
            }
        }
        assert forall|i: int| 0 <= i < b1.len() implies occurs(#[trigger] b1[i], a1) by {
            assert(occurs(b[i + 1], a));
            let k = choose|k: int| 0 <= k < a.len() && a[k] == b[i + 1];
            if k == 0 {
                lemma_path_irreflexive(b[0].0);
            } else {
                assert(a1[k - 1] == b1[i]);
            }
        }
        lemma_sorted_unique(a1, b1);
        assert(a =~= seq![a[0]] + a1);
        assert(b =~= seq![b[0]] + b1);
    }
}

/// What `collect_dates` returns does not depend on the order in which the documents are
/// listed: two listings of the same documents give the same entries, so every report made
/// from them is the same text.
pub proof fn lemma_collect_order_independent(
    files1: Seq<(String, String)>,
    files2: Seq<(String, String)>,
    r1: Seq<(String, Vec<(usize, Date)>)>,
    r2: Seq<(String, Vec<(usize, Date)>)>,
    cur: Date,
    min: int,
)
    requires
        listed_in(files1, files2),
        listed_in(files2, files1),
        sorted_by_path(r1),
        entries_from(r1, files1, files1.len() as int),
        covers(r1, files1, files1.len() as int),
        sorted_by_path(r2),
        entries_from(r2, files2, files2.len() as int),
        covers(r2, files2, files2.len() as int),
    ensures
        entries_view(r1) == entries_view(r2),
        crate::report::report_text(cur, stale_files(cur, min, entries_view(r1)))
            == crate::report::report_text(cur, stale_files(cur, min, entries_view(r2))),
{
    lemma_entries_carry_over(files1, files2, r1, r2);
    lemma_entries_carry_over(files2, files1, r2, r1);
    lemma_view_sorted(r1);
    lemma_view_sorted(r2);
    lemma_sorted_unique(entries_view(r1), entries_view(r2));
}

} // verus!
