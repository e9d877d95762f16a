//! The rule merge engine.
//!
//! All sources' records are folded into one collection keyed by
//! `(gid, sid)`.  Every record, whether it meets a rival from the same
//! source or from an earlier one, replaces the resident record only
//! when its revision is strictly greater; on equal revisions the record
//! processed first wins.  The collection keeps its records strictly
//! ascending by key, which makes the final output deterministic: one
//! line per enabled record, in key order.

use vstd::prelude::*;

verus! {

use vstd::string::StringExecFns;
use crate::rules::RuleRecord;
use crate::rules::RuleRecordView;

/// The merge identity of a record.
pub open spec fn key_of(r: RuleRecordView) -> (u32, u32) {
    (r.gid, r.sid)
}

/// Strict ordering on `(gid, sid)` keys.
pub open spec fn key_lt(a: (u32, u32), b: (u32, u32)) -> bool {
    a.0 < b.0 || (a.0 == b.0 && a.1 < b.1)
}

/// The first record in `s` whose key is `k`, if any.
pub open spec fn find_key(s: Seq<RuleRecordView>, k: (u32, u32)) -> Option<RuleRecordView>
    decreases s.len(),
{
    if s.len() == 0 {
        None
    } else if key_of(s[0]) == k {
        Some(s[0])
    } else {
        find_key(s.drop_first(), k)
    }
}

/// Which record survives when `incoming` meets what already holds the
/// key: the resident record stays unless the incoming revision is
/// strictly greater.
pub open spec fn merge_decision(existing: Option<RuleRecordView>, incoming: RuleRecordView)
    -> RuleRecordView {
    match existing {
        Some(e) => if e.rev >= incoming.rev {
            e
        } else {
            incoming
        },
        None => incoming,
    }
}

pub proof fn lemma_find_key_first(s: Seq<RuleRecordView>, k: (u32, u32), i: int)
    requires
        0 <= i < s.len(),
        key_of(s[i]) == k,
        forall|j: int| 0 <= j < i ==> key_of(s[j]) != k,
    ensures
        find_key(s, k) == Some(s[i]),
    decreases i,
{
    if i > 0 {
        assert(forall|j: int|
            0 <= j < i - 1 ==> key_of(s.drop_first()[j]) == key_of(s[j + 1]) && key_of(s[j + 1])
                != k);
        lemma_find_key_first(s.drop_first(), k, i - 1);
    }
}

pub proof fn lemma_find_key_absent(s: Seq<RuleRecordView>, k: (u32, u32))
    requires
        forall|j: int| 0 <= j < s.len() ==> key_of(s[j]) != k,
    ensures
        find_key(s, k) is None,
    decreases s.len(),
{
    if s.len() > 0 {
        lemma_find_key_absent(s.drop_first(), k);
    }
}

/// The merged rule collection, strictly ascending by `(gid, sid)`.
pub struct RuleSet {
    pub records: Vec<RuleRecord>,
}

impl View for RuleSet {
    type V = Seq<RuleRecordView>;

    open spec fn view(&self) -> Seq<RuleRecordView> {
        self.records@.map_values(|r: RuleRecord| r@)
    }
}

/// Records strictly ascending by key: each key appears at most once.
pub open spec fn sorted_by_key(s: Seq<RuleRecordView>) -> bool {
    forall|i: int, j: int| 0 <= i < j < s.len() ==> key_lt(key_of(s[i]), key_of(s[j]))
}

impl RuleSet {
    /// The collection's well-formedness: strictly sorted by key.
    pub open spec fn wf(self) -> bool {
        sorted_by_key(self@)
    }

    /// An empty collection.
    pub fn new() -> (r: RuleSet)
        ensures
            r.wf(),
            r@ == Seq::<RuleRecordView>::empty(),
    {
        let r = RuleSet { records: Vec::new() };
        proof {
            assert(r@ =~= Seq::<RuleRecordView>::empty());
        }
        r
    }

    /// How many records the collection holds.
    pub fn len(&self) -> (n: usize)
        ensures
            n == self@.len(),
    {
        self.records.len()
    }

    /// First position whose key is not below `(gid, sid)`.
    fn lower_bound(&self, gid: u32, sid: u32) -> (p: usize)
        requires
            self.wf(),
        ensures
            p <= self@.len(),
            forall|j: int| 0 <= j < p ==> key_lt(key_of(self@[j]), (gid, sid)),
            p < self@.len() ==> !key_lt(key_of(self@[p as int]), (gid, sid)),
    {
        let n: usize = self.records.len();
        let mut p: usize = 0;
        while p < n
            invariant
                n == self@.len(),
                p <= n,
                forall|j: int| 0 <= j < p ==> key_lt(key_of(self@[j]), (gid, sid)),
            decreases n - p,
        {
            let rec: &RuleRecord = &self.records[p];
            if rec.gid < gid || (rec.gid == gid && rec.sid < sid) {
                p = p + 1;
            } else {
                return p;
            }
        }
        p
    }

    /// Merge one record: the resident record for the key stays unless
    /// the incoming revision is strictly greater.
    pub fn merge_keep_higher(&mut self, r: RuleRecord)
        requires
            old(self).wf(),
        ensures
            final(self).wf(),
            find_key(final(self)@, key_of(r@)) == Some(
                merge_decision(find_key(old(self)@, key_of(r@)), r@),
            ),
            forall|k: (u32, u32)|
                k != key_of(r@) ==> find_key(final(self)@, k) == find_key(old(self)@, k),
    {
        let ghost rk = key_of(r@);
        let p: usize = self.lower_bound(r.gid, r.sid);
        let ghost olds = self@;
        if p < self.records.len() {
            let same: bool = {
                let e: &RuleRecord = &self.records[p];
                e.gid == r.gid && e.sid == r.sid
            };
            if same {
                proof {
                    lemma_key_unique_at(olds, p as int, rk);
                    lemma_find_key_first(olds, rk, p as int);
                }
                let keep: bool = {
                    let e: &RuleRecord = &self.records[p];
                    e.rev >= r.rev
                };
                if keep {
                    proof {
                        assert(merge_decision(find_key(olds, rk), r@) == olds[p as int]);
                    }
                } else {
                    self.records.remove(p);
                    self.records.insert(p, r);
                    proof {
                        assert(self@ =~= olds.update(p as int, r@));
                        lemma_after_update(olds, p as int, r@, rk);
                    }
                }
                return ;
            }
        }
        self.records.insert(p, r);
        proof {
            assert(self@ =~= olds.insert(p as int, r@));
            lemma_after_insert(olds, p as int, r@, rk);
            assert(forall|j: int| 0 <= j < olds.len() ==> key_of(olds[j]) != rk);
            lemma_find_key_absent(olds, rk);
        }
    }
}

/// In a sorted sequence where position `p` holds key `k`, no other
/// position holds `k`, and no position before `p` does.
proof fn lemma_key_unique_at(s: Seq<RuleRecordView>, p: int, k: (u32, u32))
    requires
        sorted_by_key(s),
        0 <= p < s.len(),
        key_of(s[p]) == k,
    ensures
        forall|j: int| 0 <= j < s.len() && j != p ==> key_of(s[j]) != k,
        forall|j: int| 0 <= j < p ==> key_of(s[j]) != k,
{
    assert forall|j: int| 0 <= j < s.len() && j != p implies key_of(s[j]) != k by {
        if j < p {
            assert(key_lt(key_of(s[j]), key_of(s[p])));
        } else {
            assert(key_lt(key_of(s[p]), key_of(s[j])));
        }
    }
}

/// Replacing position `p`, which held key `k`, with a new record of the
/// same key keeps sortedness and changes only that key's lookup.
proof fn lemma_after_update(s: Seq<RuleRecordView>, p: int, r: RuleRecordView, k: (u32, u32))
    requires
        sorted_by_key(s),
        0 <= p < s.len(),
        key_of(s[p]) == k,
        key_of(r) == k,
    ensures
        sorted_by_key(s.update(p, r)),
        find_key(s.update(p, r), k) == Some(r),
        forall|k2: (u32, u32)| k2 != k ==> find_key(s.update(p, r), k2) == find_key(s, k2),
{
    let s2 = s.update(p, r);
    lemma_key_unique_at(s, p, k);
    lemma_find_key_first(s2, k, p);
    assert forall|k2: (u32, u32)| k2 != k implies find_key(s2, k2) == find_key(s, k2) by {
        lemma_find_same_except(s, s2, k2, p);
    }
}

/// Two sequences equal except at position `p`, where neither side holds
/// key `k2`, agree on `k2` lookups.
proof fn lemma_find_same_except(
    s: Seq<RuleRecordView>,
    s2: Seq<RuleRecordView>,
    k2: (u32, u32),
    p: int,
)
    requires
        s.len() == s2.len(),
        0 <= p < s.len(),
        forall|j: int| 0 <= j < s.len() && j != p ==> s[j] == s2[j],
        key_of(s[p]) != k2,
        key_of(s2[p]) != k2,
    ensures
        find_key(s, k2) == find_key(s2, k2),
    decreases s.len(),
{
    if s.len() > 0 {
        if p == 0 {
            assert(s.drop_first() =~= s2.drop_first());
        } else {
            assert(s[0] == s2[0]);
            if key_of(s[0]) != k2 {
                lemma_find_same_except(s.drop_first(), s2.drop_first(), k2, p - 1);
            }
        }
    }
}

/// Inserting a record with key `k` at its sorted position keeps
/// sortedness, makes `k` found, and leaves other keys unchanged.
proof fn lemma_after_insert(s: Seq<RuleRecordView>, p: int, r: RuleRecordView, k: (u32, u32))
    requires
        sorted_by_key(s),
        0 <= p <= s.len(),
        key_of(r) == k,
        forall|j: int| 0 <= j < p ==> key_lt(key_of(s[j]), k),
        p < s.len() ==> !key_lt(key_of(s[p]), k) && key_of(s[p]) != k,
    ensures
        sorted_by_key(s.insert(p, r)),
        find_key(s.insert(p, r), k) == Some(r),
        forall|k2: (u32, u32)| k2 != k ==> find_key(s.insert(p, r), k2) == find_key(s, k2),
{
    let s2 = s.insert(p, r);
    assert forall|i: int, j: int| 0 <= i < j < s2.len() implies key_lt(
        key_of(s2[i]),
        key_of(s2[j]),
    ) by {
        if i < p && j == p {
        } else if i == p && j > p {
            assert(s2[j] == s[j - 1]);
            if j - 1 > p {
                assert(key_lt(key_of(s[p]), key_of(s[j - 1])));
            }
            assert(!key_lt(key_of(s[p]), k) && key_of(s[p]) != k ==> key_lt(k, key_of(s[p])));
        }
    }
    assert(forall|j: int| 0 <= j < p ==> key_of(s2[j]) == key_of(s[j]) && key_of(s[j]) != k);
    lemma_find_key_first(s2, k, p);
    assert forall|k2: (u32, u32)| k2 != k implies find_key(s2, k2) == find_key(s, k2) by {
        lemma_find_insert_other(s, r, p, k2);
    }
}

/// Inserting a record whose key is not `k2` leaves `k2` lookups as they
/// were.
proof fn lemma_find_insert_other(s: Seq<RuleRecordView>, r: RuleRecordView, p: int, k2: (u32, u32))
    requires
        0 <= p <= s.len(),
        key_of(r) != k2,
    ensures
        find_key(s.insert(p, r), k2) == find_key(s, k2),
    decreases s.len(),
{
    let s2 = s.insert(p, r);
    if p == 0 {
        assert(s2[0] == r);
        assert(s2.drop_first() =~= s);
    } else {
        assert(s2[0] == s[0]);
        if key_of(s[0]) != k2 {
            assert(s2.drop_first() =~= s.drop_first().insert(p - 1, r));
            lemma_find_insert_other(s.drop_first(), r, p - 1, k2);
        }
    }
}

/// Law: for two records with the same key, the one with the strictly
/// greater revision survives the merge whichever of the two is
/// processed first; on equal revisions the record processed first is
/// kept.
pub proof fn lemma_merge_tie_break(a: RuleRecordView, b: RuleRecordView)
    requires
        key_of(a) == key_of(b),
    ensures
        a.rev > b.rev ==> merge_decision(Some(merge_decision(None, a)), b) == a,
        a.rev > b.rev ==> merge_decision(Some(merge_decision(None, b)), a) == a,
        b.rev > a.rev ==> merge_decision(Some(merge_decision(None, a)), b) == b,
        b.rev > a.rev ==> merge_decision(Some(merge_decision(None, b)), a) == b,
        a.rev == b.rev ==> merge_decision(Some(merge_decision(None, a)), b) == a,
        a.rev == b.rev ==> merge_decision(Some(merge_decision(None, b)), a) == b,
{
}

/// No two records share a key.
pub open spec fn keys_unique(s: Seq<RuleRecordView>) -> bool {
    forall|i: int, j: int| 0 <= i < j < s.len() ==> key_of(s[i]) != key_of(s[j])
}

/// Strict sortedness leaves every key with one holder.
pub proof fn lemma_sorted_keys_unique(s: Seq<RuleRecordView>)
    requires
        sorted_by_key(s),
    ensures
        keys_unique(s),
{
    assert forall|i: int, j: int| 0 <= i < j < s.len() implies key_of(s[i]) != key_of(
        s[j],
    ) by {
        assert(key_lt(key_of(s[i]), key_of(s[j])));
    }
}

/// A key's holder in a map, as an option.
pub open spec fn lookup_map(m: Map<(u32, u32), RuleRecordView>, k: (u32, u32)) -> Option<
    RuleRecordView,
> {
    if m.contains_key(k) {
        Some(m[k])
    } else {
        None
    }
}

/// The records of `s` as a map; on the unique-key collections the
/// library maintains this is simply the map holding each record under
/// its key.
pub open spec fn map_of_records(s: Seq<RuleRecordView>) -> Map<(u32, u32), RuleRecordView>
    decreases s.len(),
{
    if s.len() == 0 {
        Map::empty()
    } else {
        map_of_records(s.drop_last()).insert(key_of(s.last()), s.last())
    }
}

/// Fold the records of `s`, in order, into `m` by [`merge_decision`]:
/// the cross-source merge.
pub open spec fn merge_into_map(
    m: Map<(u32, u32), RuleRecordView>,
    s: Seq<RuleRecordView>,
) -> Map<(u32, u32), RuleRecordView>
    decreases s.len(),
{
    if s.len() == 0 {
        m
    } else {
        let prev = merge_into_map(m, s.drop_last());
        prev.insert(
            key_of(s.last()),
            merge_decision(lookup_map(prev, key_of(s.last())), s.last()),
        )
    }
}

/// Appending one record changes a lookup only where nothing was found
/// before.
pub proof fn lemma_find_key_push(s: Seq<RuleRecordView>, x: RuleRecordView, k: (u32, u32))
    ensures
        find_key(s.push(x), k) == (match find_key(s, k) {
            Some(e) => Some(e),
            None => if key_of(x) == k {
                Some(x)
            } else {
                None
            },
        }),
    decreases s.len(),
{
    if s.len() == 0 {
        assert(s.push(x)[0] == x);
        assert(s.push(x).drop_first() =~= Seq::<RuleRecordView>::empty());
        assert(find_key(s, k) is None);
        if key_of(x) == k {
            assert(find_key(s.push(x), k) == Some(x));
        } else {
            assert(find_key(s.push(x), k) == find_key(
                Seq::<RuleRecordView>::empty(),
                k,
            ));
        }
    } else {
        assert(s.push(x)[0] == s[0]);
        if key_of(s[0]) == k {
            assert(find_key(s.push(x), k) == Some(s[0]));
            assert(find_key(s, k) == Some(s[0]));
        } else {
            assert(s.push(x).drop_first() =~= s.drop_first().push(x));
            lemma_find_key_push(s.drop_first(), x, k);
            assert(find_key(s.push(x), k) == find_key(s.drop_first().push(x), k));
            assert(find_key(s, k) == find_key(s.drop_first(), k));
        }
    }
}

/// On a sequence with unique keys, the first-match lookup agrees with
/// the last-wins map.
pub proof fn lemma_find_key_eq_map(s: Seq<RuleRecordView>)
    requires
        keys_unique(s),
    ensures
        forall|k: (u32, u32)| find_key(s, k) == lookup_map(map_of_records(s), k),
    decreases s.len(),
{
    if s.len() > 0 {
        let t = s.drop_last();
        let x = s.last();
        assert(keys_unique(t)) by {
            assert(forall|i: int, j: int|
                0 <= i < j < t.len() ==> key_of(#[trigger] t[i]) != key_of(#[trigger] t[j]));
        }
        lemma_find_key_eq_map(t);
        assert(t.push(x) =~= s);
        assert forall|k: (u32, u32)| find_key(s, k) == lookup_map(map_of_records(s), k) by {
            lemma_find_key_push(t, x, k);
            if k == key_of(x) {
                assert(forall|j: int| 0 <= j < t.len() ==> key_of(#[trigger] t[j]) != k);
                lemma_find_key_absent(t, k);
            }
        }
    }
}

/// The enabled records of `s`, in order.
pub open spec fn output_records(s: Seq<RuleRecordView>) -> Seq<RuleRecordView>
    decreases s.len(),
{
    if s.len() == 0 {
        Seq::empty()
    } else {
        (if s[0].enabled {
            seq![s[0]]
        } else {
            Seq::empty()
        }) + output_records(s.drop_first())
    }
}

/// The text of a record sequence: each record's raw line followed by a
/// newline.
pub open spec fn render_lines(s: Seq<RuleRecordView>) -> Seq<char>
    decreases s.len(),
{
    if s.len() == 0 {
        Seq::empty()
    } else {
        s[0].raw + seq!['\n'] + render_lines(s.drop_first())
    }
}

proof fn lemma_output_records_snoc(s: Seq<RuleRecordView>, x: RuleRecordView)
    ensures
        output_records(s.push(x)) == output_records(s) + (if x.enabled {
            seq![x]
        } else {
            Seq::<RuleRecordView>::empty()
        }),
    decreases s.len(),
{
    let opt = (if x.enabled {
        seq![x]
    } else {
        Seq::<RuleRecordView>::empty()
    });
    if s.len() == 0 {
        assert(s.push(x)[0] == x);
        assert(s.push(x).drop_first() =~= Seq::<RuleRecordView>::empty());
        assert(output_records(s.push(x)) == opt + output_records(
            Seq::<RuleRecordView>::empty(),
        ));
        assert(opt + Seq::<RuleRecordView>::empty() =~= opt);
        assert(output_records(s) + opt =~= opt);
    } else {
        let head = (if s[0].enabled {
            seq![s[0]]
        } else {
            Seq::<RuleRecordView>::empty()
        });
        assert(s.push(x)[0] == s[0]);
        assert(s.push(x).drop_first() =~= s.drop_first().push(x));
        lemma_output_records_snoc(s.drop_first(), x);
        assert(output_records(s.push(x)) == head + (output_records(s.drop_first()) + opt));
        assert(output_records(s) == head + output_records(s.drop_first()));
        assert(head + (output_records(s.drop_first()) + opt) =~= (head + output_records(
            s.drop_first(),
        )) + opt);
    }
}

proof fn lemma_render_lines_snoc(s: Seq<RuleRecordView>, x: RuleRecordView)
    ensures
        render_lines(s.push(x)) == render_lines(s) + x.raw + seq!['\n'],
    decreases s.len(),
{
    if s.len() == 0 {
        assert(s.push(x)[0] == x);
        assert(s.push(x).drop_first() =~= Seq::<RuleRecordView>::empty());
        assert(render_lines(s.push(x)) == x.raw + seq!['\n'] + render_lines(
            Seq::<RuleRecordView>::empty(),
        ));
        assert(x.raw + seq!['\n'] + Seq::<char>::empty() =~= x.raw + seq!['\n']);
        assert(render_lines(s) + x.raw + seq!['\n'] =~= x.raw + seq!['\n']);
    } else {
        assert(s.push(x)[0] == s[0]);
        assert(s.push(x).drop_first() =~= s.drop_first().push(x));
        lemma_render_lines_snoc(s.drop_first(), x);
        assert(render_lines(s.push(x)) == s[0].raw + seq!['\n'] + (render_lines(s.drop_first())
            + x.raw + seq!['\n']));
        assert(render_lines(s) == s[0].raw + seq!['\n'] + render_lines(s.drop_first()));
        assert(s[0].raw + seq!['\n'] + (render_lines(s.drop_first()) + x.raw + seq!['\n'])
            =~= (s[0].raw + seq!['\n'] + render_lines(s.drop_first())) + x.raw + seq!['\n']);
    }
}

impl RuleSet {
    /// The final output text: the raw line of every enabled record, one
    /// per line, in key order; disabled records are omitted entirely.
    pub fn render_output(&self) -> (r: String)
        ensures
            r@ == render_lines(output_records(self@)),
    {
        let mut out: String = String::new();
        let mut i: usize = 0;
        proof {
            reveal_strlit("\n");
            assert("\n"@ =~= seq!['\n']);
            assert(self@.take(0) =~= Seq::<RuleRecordView>::empty());
        }
        while i < self.records.len()
            invariant
                i <= self@.len(),
                self@.len() == self.records@.len(),
                out@ == render_lines(output_records(self@.take(i as int))),
            decreases self@.len() - i,
        {
            proof {
                assert(self@[i as int] == self.records@[i as int]@);
                assert(self@.take(i + 1) =~= self@.take(i as int).push(self@[i as int]));
                lemma_output_records_snoc(self@.take(i as int), self@[i as int]);
                if self@[i as int].enabled {
                    assert(output_records(self@.take(i as int)) + seq![self@[i as int]]
                        =~= output_records(self@.take(i as int)).push(self@[i as int]));
                    lemma_render_lines_snoc(
                        output_records(self@.take(i as int)),
                        self@[i as int],
                    );
                } else {
                    assert(output_records(self@.take(i as int)) + Seq::<
                        RuleRecordView,
                    >::empty() =~= output_records(self@.take(i as int)));
                }
            }
            let ghost prev = out@;
            let rec: &RuleRecord = &self.records[i];
            if rec.enabled {
                out.append(rec.raw.as_str());
                out.append("\n");
                proof {
                    reveal_strlit("\n");
                    assert("\n"@ =~= seq!['\n']);
                    assert(rec.raw@ == self@[i as int].raw);
                    assert(out@ == prev + self@[i as int].raw + seq!['\n']);
                }
            }
            i = i + 1;
        }
        proof {
            assert(self@.take(i as int) =~= self@);
        }
        out
    }
}

/// Rendering record sequences whose raw lines hold no newline, then
/// splitting the text back into lines, recovers exactly the raw lines.
pub proof fn lemma_rendered_lines(s: Seq<RuleRecordView>)
    requires
        forall|i: int| 0 <= i < s.len() ==> !(#[trigger] s[i]).raw.contains('\n'),
    ensures
        crate::text::split_lines(render_lines(s)) == s.map_values(|r: RuleRecordView| r.raw),
    decreases s.len(),
{
    if s.len() == 0 {
        assert(render_lines(s).len() == 0);
        assert(crate::text::split_lines(render_lines(s)) =~= s.map_values(
            |r: RuleRecordView| r.raw,
        ));
    } else {
        let tail = s.drop_first();
        assert(forall|i: int| 0 <= i < tail.len() ==> tail[i] == s[i + 1]);
        lemma_rendered_lines(tail);
        let raw = s[0].raw;
        let full = render_lines(s);
        assert(full == raw + seq!['\n'] + render_lines(tail));
        assert forall|j: int| 0 <= j < raw.len() implies full[j] != '\n' by {
            assert(full[j] == raw[j]);
            if raw[j] == '\n' {
                assert(raw.contains('\n'));
            }
        }
        assert(full[raw.len() as int] == '\n');
        crate::text::lemma_line_end_at(full, 0, raw.len() as int);
        crate::text::lemma_split_lines_from_subrange(full, raw.len() as int + 1);
        assert(crate::text::split_lines(full) == seq![full.subrange(0, raw.len() as int)]
            + crate::text::split_lines_from(full, raw.len() as int + 1));
        assert(full.subrange(0, raw.len() as int) =~= raw);
        assert(full.subrange(raw.len() as int + 1, full.len() as int) =~= render_lines(tail));
        assert(crate::text::split_lines(full) == seq![raw] + crate::text::split_lines(
            render_lines(tail),
        ));
        assert(seq![raw] + tail.map_values(|r: RuleRecordView| r.raw) =~= s.map_values(
            |r: RuleRecordView| r.raw,
        ));
    }
}

/// Law: when no record's raw line holds a newline, the lines of the
/// rendered output are exactly the enabled records' raw lines, one
/// each, in the collection's strictly ascending key order.
pub proof fn lemma_output_lines(s: Seq<RuleRecordView>)
    requires
        sorted_by_key(s),
        forall|i: int| 0 <= i < s.len() ==> !(#[trigger] s[i]).raw.contains('\n'),
    ensures
        crate::text::split_lines(render_lines(output_records(s))) == output_records(
            s,
        ).map_values(|r: RuleRecordView| r.raw),
        sorted_by_key(output_records(s)),
        forall|j: int|
            0 <= j < output_records(s).len() ==> output_records(s)[j].enabled && s.contains(
                output_records(s)[j],
            ),
        forall|i: int| 0 <= i < s.len() && s[i].enabled ==> output_records(s).contains(s[i]),
{
    lemma_output_filtering_and_order(s);
    assert forall|i: int|
        0 <= i < output_records(s).len() implies !(#[trigger] output_records(
        s,
    )[i]).raw.contains('\n') by {
        assert(s.contains(output_records(s)[i]));
        let w = choose|w: int| 0 <= w < s.len() && s[w] == output_records(s)[i];
        assert(!s[w].raw.contains('\n'));
    }
    lemma_rendered_lines(output_records(s));
}

/// Law: the rendered output holds exactly the enabled records, each
/// once, in strictly ascending key order — no disabled record's line is
/// emitted, and rendering the same collection twice gives the same
/// text.
pub proof fn lemma_output_filtering_and_order(s: Seq<RuleRecordView>)
    requires
        sorted_by_key(s),
    ensures
        forall|j: int|
            0 <= j < output_records(s).len() ==> output_records(s)[j].enabled && s.contains(
                output_records(s)[j],
            ),
        forall|i: int| 0 <= i < s.len() && s[i].enabled ==> output_records(s).contains(s[i]),
        sorted_by_key(output_records(s)),
    decreases s.len(),
{
    let out = output_records(s);
    if s.len() > 0 {
        let tail = s.drop_first();
        assert(sorted_by_key(tail)) by {
            assert(forall|i: int, j: int|
                0 <= i < j < tail.len() ==> key_lt(key_of(#[trigger] tail[i]), key_of(
                    #[trigger] tail[j],
                )));
        }
        lemma_output_filtering_and_order(tail);
        let head = (if s[0].enabled {
            seq![s[0]]
        } else {
            Seq::<RuleRecordView>::empty()
        });
        assert(out == head + output_records(tail));
        assert forall|j: int| 0 <= j < out.len() implies out[j].enabled && s.contains(
            out[j],
        ) by {
            if j < head.len() {
                assert(out[j] == s[0]);
            } else {
                assert(out[j] == output_records(tail)[j - head.len()]);
                let x = output_records(tail)[j - head.len()];
                assert(tail.contains(x));
                let w = choose|w: int| 0 <= w < tail.len() && tail[w] == x;
                assert(s[w + 1] == x);
            }
        }
        assert forall|i: int| 0 <= i < s.len() && s[i].enabled implies out.contains(s[i]) by {
            if i == 0 {
                assert(out[0] == s[0]);
            } else {
                assert(tail[i - 1] == s[i]);
                assert(output_records(tail).contains(s[i]));
                let w = choose|w: int|
                    0 <= w < output_records(tail).len() && output_records(tail)[w] == s[i];
                assert(out[head.len() + w] == s[i]);
            }
        }
        assert forall|i: int, j: int| 0 <= i < j < out.len() implies key_lt(
            key_of(out[i]),
            key_of(out[j]),
        ) by {
            if i < head.len() {
                let x = output_records(tail)[j - head.len()];
                assert(tail.contains(x)) by {
                    lemma_output_filtering_and_order(tail);
                }
                let w = choose|w: int| 0 <= w < tail.len() && tail[w] == x;
                assert(key_lt(key_of(s[0]), key_of(s[w + 1])));
            } else {
                assert(key_lt(
                    key_of(output_records(tail)[i - head.len()]),
                    key_of(output_records(tail)[j - head.len()]),
                ));
            }
        }
    }
}

} // verus!
