//! The container on screen and how listings merge into it: a blob that
//! arrives from the other side of the sync (local after remote, or remote
//! after local) with a digest already shown becomes `Synced`; any other
//! blob is appended.

use vstd::prelude::*;
use std::collections::HashMap;
use crate::blob::{Blob, Location};
use crate::text::{lemma_replace_char_by_itself, replace_char, replace_char_with};

verus! {

/// What a container holds: its name and its blobs, in display order.
pub struct ContainerView {
    pub name: Seq<char>,
    pub blobs: Seq<Blob>,
}

/// The container whose blobs are shown.
pub struct CurrentContainer {
    pub name: String,
    blobs: Vec<Blob>,
}

impl View for CurrentContainer {
    type V = ContainerView;

    closed spec fn view(&self) -> ContainerView {
        ContainerView { name: self.name@, blobs: self.blobs@ }
    }
}

/// Index of the last of the first `limit` blobs whose digest is `md5`, or -1.
pub open spec fn last_match(blobs: Seq<Blob>, limit: int, md5: Seq<u8>) -> int
    decreases limit,
{
    if limit <= 0 {
        -1
    } else if blobs[limit - 1].md5@ == md5 {
        limit - 1
    } else {
        last_match(blobs, limit - 1, md5)
    }
}

/// `b` with its location replaced.
pub open spec fn with_location(b: Blob, location: Location) -> Blob {
    Blob { location, ..b }
}

/// One arriving blob: where one of the first `n_old` blobs has its digest
/// (the last such one), that blob becomes `Synced` if it was neither
/// `Synced` nor at the arriving blob's location; otherwise the blob is
/// appended.
pub open spec fn merge_one(blobs: Seq<Blob>, n_old: int, b: Blob) -> Seq<Blob> {
    let i = last_match(blobs, n_old, b.md5@);
    if i < 0 {
        blobs.push(b)
    } else if blobs[i].location != Location::Synced && blobs[i].location != b.location {
        blobs.update(i, with_location(blobs[i], Location::Synced))
    } else {
        blobs
    }
}

/// The arriving blobs taken in order; only the first `n_old` blobs, those
/// that were there before, are matched against.
pub open spec fn merge_all(blobs: Seq<Blob>, n_old: int, news: Seq<Blob>) -> Seq<Blob>
    decreases news.len(),
{
    if news.len() == 0 {
        blobs
    } else {
        merge_all(merge_one(blobs, n_old, news[0]), n_old, news.drop_first())
    }
}

/// Some arriving blob matches blob `i` (it is the last of the first `n_old`
/// with its digest) and comes from another location than blob `i` has.
pub open spec fn conflicting_arrival(blobs: Seq<Blob>, n_old: int, news: Seq<Blob>, i: int) -> bool {
    exists|k: int|
        0 <= k < news.len() && last_match(blobs, n_old, #[trigger] news[k].md5@) == i
            && news[k].location != blobs[i].location
}

/// Where blob `i` is after a merge: `Synced` if it was already, or if a blob
/// arrived for it from another location; otherwise where it was.
pub open spec fn merged_location(blobs: Seq<Blob>, n_old: int, news: Seq<Blob>, i: int) -> Location {
    if blobs[i].location != Location::Synced && conflicting_arrival(blobs, n_old, news, i) {
        Location::Synced
    } else {
        blobs[i].location
    }
}

/// The arriving blobs whose digest none of the first `n_old` blobs has.
pub open spec fn unmatched(blobs: Seq<Blob>, n_old: int, news: Seq<Blob>) -> Seq<Blob> {
    news.filter(is_unmatched(blobs, n_old))
}

/// Whether no blob among the first `n_old` has the digest of `b`.
pub open spec fn is_unmatched(blobs: Seq<Blob>, n_old: int) -> spec_fn(Blob) -> bool {
    |b: Blob| last_match(blobs, n_old, b.md5@) < 0
}

proof fn lemma_filter_keeps_all(s: Seq<Blob>, p: spec_fn(Blob) -> bool)
    requires
        forall|i: int| 0 <= i < s.len() ==> p(#[trigger] s[i]),
    ensures
        s.filter(p) == s,
    decreases s.len(),
{
    reveal_with_fuel(Seq::<_>::filter, 1);
    if s.len() > 0 {
        lemma_filter_keeps_all(s.drop_last(), p);
        assert(s.drop_last().push(s.last()) =~= s);
    }
}

/// The effect of a merge, blob by blob: the blobs that were there keep their
/// place, name, size, bytes and digest and move to `merged_location`; the
/// unmatched arrivals follow them, in order.
pub open spec fn merge_effect(blobs: Seq<Blob>, news: Seq<Blob>, merged: Seq<Blob>) -> bool {
    &&& merged.len() == blobs.len() + unmatched(blobs, blobs.len() as int, news).len()
    &&& forall|i: int|
        0 <= i < blobs.len() ==> #[trigger] merged[i] == with_location(
            blobs[i],
            merged_location(blobs, blobs.len() as int, news, i),
        )
    &&& merged.subrange(blobs.len() as int, merged.len() as int) == unmatched(
        blobs,
        blobs.len() as int,
        news,
    )
}

proof fn lemma_last_match_bounds(blobs: Seq<Blob>, limit: int, md5: Seq<u8>)
    requires
        0 <= limit,
    ensures
        -1 <= last_match(blobs, limit, md5) < limit,
        last_match(blobs, limit, md5) >= 0 ==> blobs[last_match(blobs, limit, md5)].md5@ == md5,
    decreases limit,
{
    if limit > 0 {
        lemma_last_match_bounds(blobs, limit - 1, md5);
    }
}

/// `last_match` reads only the digests of the first `limit` blobs.
proof fn lemma_last_match_same_digests(a: Seq<Blob>, b: Seq<Blob>, limit: int, md5: Seq<u8>)
    requires
        limit <= a.len(),
        limit <= b.len(),
        forall|i: int| 0 <= i < limit ==> #[trigger] a[i].md5 == b[i].md5,
    ensures
        last_match(a, limit, md5) == last_match(b, limit, md5),
    decreases limit,
{
    if limit > 0 {
        assert(a[limit - 1].md5 == b[limit - 1].md5);
        lemma_last_match_same_digests(a, b, limit - 1, md5);
    }
}

/// The general form of `merge_effect`, for a merge into blobs that may
/// already hold appended ones beyond the first `n_old`.
proof fn lemma_merge_all_effect(blobs: Seq<Blob>, n_old: int, news: Seq<Blob>)
    requires
        0 <= n_old <= blobs.len(),
    ensures
        merge_all(blobs, n_old, news).len() == blobs.len() + unmatched(blobs, n_old, news).len(),
        forall|i: int|
            0 <= i < n_old ==> #[trigger] merge_all(blobs, n_old, news)[i] == with_location(
                blobs[i],
                merged_location(blobs, n_old, news, i),
            ),
        forall|i: int|
            n_old <= i < blobs.len() ==> #[trigger] merge_all(blobs, n_old, news)[i] == blobs[i],
        merge_all(blobs, n_old, news).subrange(
            blobs.len() as int,
            merge_all(blobs, n_old, news).len() as int,
        ) == unmatched(blobs, n_old, news),
    decreases news.len(),
{
    let result = merge_all(blobs, n_old, news);
    if news.len() == 0 {
        assert(unmatched(blobs, n_old, news) =~= Seq::<Blob>::empty());
        assert(result.subrange(blobs.len() as int, result.len() as int) =~= Seq::<Blob>::empty());
        assert forall|i: int| 0 <= i < n_old implies #[trigger] result[i] == with_location(
            blobs[i],
            merged_location(blobs, n_old, news, i),
        ) by {
            assert(!conflicting_arrival(blobs, n_old, news, i));
            assert(with_location(blobs[i], blobs[i].location) == blobs[i]);
        }
    } else {
        let b = news[0];
        let rest = news.drop_first();
        let j = last_match(blobs, n_old, b.md5@);
        lemma_last_match_bounds(blobs, n_old, b.md5@);
        let next = merge_one(blobs, n_old, b);
        assert forall|i: int| 0 <= i < n_old implies #[trigger] next[i].md5 == blobs[i].md5 by {}
        assert forall|m: Seq<u8>| last_match(next, n_old, m) == last_match(blobs, n_old, m) by {
            lemma_last_match_same_digests(next, blobs, n_old, m);
        }
        lemma_merge_all_effect(next, n_old, rest);
        assert(result == merge_all(next, n_old, rest));
        // the unmatched arrivals: `b` first where it matched nothing, then the rest
        assert(news =~= seq![b] + rest);
        assert(is_unmatched(blobs, n_old) =~= is_unmatched(next, n_old));
        assert(unmatched(blobs, n_old, rest) == unmatched(next, n_old, rest));
        rest.lemma_filter_prepend(b, is_unmatched(blobs, n_old));
        if j < 0 {
            assert(unmatched(blobs, n_old, news) =~= seq![b] + unmatched(blobs, n_old, rest));
            assert(next.len() == blobs.len() + 1);
            let tail = result.subrange(next.len() as int, result.len() as int);
            assert(result.subrange(blobs.len() as int, result.len() as int) =~= seq![next[blobs.len() as int]] + tail);
            assert(next[blobs.len() as int] == b);
        } else {
            assert(unmatched(blobs, n_old, news) =~= unmatched(blobs, n_old, rest));
            assert(next.len() == blobs.len());
        }
        assert forall|i: int| 0 <= i < n_old implies #[trigger] result[i] == with_location(
            blobs[i],
            merged_location(blobs, n_old, news, i),
        ) by {
            assert(result[i] == with_location(next[i], merged_location(next, n_old, rest, i)));
            if conflicting_arrival(next, n_old, rest, i) {
                let k = choose|k: int|
                    0 <= k < rest.len() && last_match(next, n_old, #[trigger] rest[k].md5@) == i
                        && rest[k].location != next[i].location;
                assert(news[k + 1] == rest[k]);
            }
            if i != j {
                assert(next[i] == blobs[i]);
                if conflicting_arrival(blobs, n_old, news, i) {
                    let k = choose|k: int|
                        0 <= k < news.len() && last_match(blobs, n_old, #[trigger] news[k].md5@)
                            == i && news[k].location != blobs[i].location;
                    assert(k != 0);
                    assert(rest[k - 1] == news[k]);
                    assert(conflicting_arrival(next, n_old, rest, i));
                }
            } else {
                if blobs[i].location != Location::Synced && blobs[i].location != b.location {
                    assert(conflicting_arrival(blobs, n_old, news, i)) by {
                        assert(news[0] == b);
                    }
                } else {
                    assert(next[i] == blobs[i]);
                    if conflicting_arrival(blobs, n_old, news, i) && blobs[i].location
                        != Location::Synced {
                        let k = choose|k: int|
                            0 <= k < news.len() && last_match(blobs, n_old, #[trigger] news[k].md5@)
                                == i && news[k].location != blobs[i].location;
                        assert(k != 0);
                        assert(rest[k - 1] == news[k]);
                        assert(conflicting_arrival(next, n_old, rest, i));
                    }
                }
            }
        }
        assert forall|i: int| n_old <= i < blobs.len() implies #[trigger] result[i] == blobs[i] by {
            assert(result[i] == next[i]);
        }
    }
}

/// A merge keeps every blob that was there, in place, changing at most its
/// location (to `Synced` exactly when it was already or a blob arrives for it
/// from another location), and appends the arrivals with new digests in order.
pub proof fn law_merge_effect(blobs: Seq<Blob>, news: Seq<Blob>)
    ensures
        merge_effect(blobs, news, merge_all(blobs, blobs.len() as int, news)),
{
    lemma_merge_all_effect(blobs, blobs.len() as int, news);
}

/// A blob that was listed on one side and arrives from the other side, or
/// that was already `Synced`, is `Synced` after the merge.
pub proof fn law_arrival_from_other_side_syncs(blobs: Seq<Blob>, news: Seq<Blob>, i: int, k: int)
    requires
        0 <= i < blobs.len(),
        0 <= k < news.len(),
        last_match(blobs, blobs.len() as int, news[k].md5@) == i,
        news[k].location != blobs[i].location,
    ensures
        merge_all(blobs, blobs.len() as int, news)[i].location == Location::Synced,
{
    lemma_merge_all_effect(blobs, blobs.len() as int, news);
    assert(conflicting_arrival(blobs, blobs.len() as int, news, i));
}

/// A `Synced` blob stays `Synced`, and no blob that was there is removed,
/// moved, or changed but for its location.
pub proof fn law_merge_keeps_blobs(blobs: Seq<Blob>, news: Seq<Blob>, i: int)
    requires
        0 <= i < blobs.len(),
    ensures
        merge_all(blobs, blobs.len() as int, news).len() >= blobs.len(),
        with_location(merge_all(blobs, blobs.len() as int, news)[i], blobs[i].location) == blobs[i],
        blobs[i].location == Location::Synced ==> merge_all(blobs, blobs.len() as int, news)[i].location
            == Location::Synced,
{
    lemma_merge_all_effect(blobs, blobs.len() as int, news);
}

/// No blob after the last match, up to the limit, has the digest.
proof fn lemma_last_match_is_last(blobs: Seq<Blob>, limit: int, md5: Seq<u8>, idx: int)
    requires
        last_match(blobs, limit, md5) < idx < limit,
    ensures
        blobs[idx].md5@ != md5,
    decreases limit,
{
    if limit > 0 && blobs[limit - 1].md5@ != md5 && idx < limit - 1 {
        lemma_last_match_is_last(blobs, limit - 1, md5, idx);
    }
}

/// The last match is at or after any blob with the digest.
proof fn lemma_last_match_at_least(blobs: Seq<Blob>, limit: int, md5: Seq<u8>, idx: int)
    requires
        0 <= idx < limit,
        blobs[idx].md5@ == md5,
    ensures
        last_match(blobs, limit, md5) >= idx,
    decreases limit,
{
    if blobs[limit - 1].md5@ != md5 {
        lemma_last_match_at_least(blobs, limit - 1, md5, idx);
    }
}

/// Merging blobs that each find a blob already `Synced` or at their own
/// location changes nothing.
proof fn lemma_merge_all_no_change(blobs: Seq<Blob>, news: Seq<Blob>)
    requires
        forall|k: int|
            0 <= k < news.len() ==> {
                let j = last_match(blobs, blobs.len() as int, #[trigger] news[k].md5@);
                &&& j >= 0
                &&& (blobs[j].location == Location::Synced || blobs[j].location == news[k].location)
            },
    ensures
        merge_all(blobs, blobs.len() as int, news) == blobs,
    decreases news.len(),
{
    if news.len() > 0 {
        let j = last_match(blobs, blobs.len() as int, news[0].md5@);
        assert(merge_one(blobs, blobs.len() as int, news[0]) == blobs);
        assert forall|k: int| 0 <= k < news.drop_first().len() implies {
            let j = last_match(blobs, blobs.len() as int, #[trigger] news.drop_first()[k].md5@);
            &&& j >= 0
            &&& (blobs[j].location == Location::Synced || blobs[j].location
                == news.drop_first()[k].location)
        } by {
            assert(news.drop_first()[k] == news[k + 1]);
        }
        lemma_merge_all_no_change(blobs, news.drop_first());
    }
}

/// Merging a listing whose digests are distinct a second time changes
/// nothing: a listing shown again is not shown twice.
pub proof fn law_merge_idempotent(blobs: Seq<Blob>, news: Seq<Blob>)
    requires
        forall|a: int, c: int|
            0 <= a < news.len() && 0 <= c < news.len() && a != c ==> #[trigger] news[a].md5@
                != #[trigger] news[c].md5@,
    ensures
        merge_all(
            merge_all(blobs, blobs.len() as int, news),
            merge_all(blobs, blobs.len() as int, news).len() as int,
            news,
        ) == merge_all(blobs, blobs.len() as int, news),
{
    let n = blobs.len() as int;
    let m = merge_all(blobs, n, news);
    let u = unmatched(blobs, n, news);
    lemma_merge_all_effect(blobs, n, news);
    assert forall|k: int| 0 <= k < news.len() implies {
        let j = last_match(m, m.len() as int, #[trigger] news[k].md5@);
        &&& j >= 0
        &&& (m[j].location == Location::Synced || m[j].location == news[k].location)
    } by {
        let d = news[k].md5@;
        let j0 = last_match(blobs, n, d);
        lemma_last_match_bounds(blobs, n, d);
        lemma_last_match_bounds(m, m.len() as int, d);
        let j = last_match(m, m.len() as int, d);
        if j0 >= 0 {
            // the blob that matched keeps its digest, and nothing after it has it
            assert(m[j0] == with_location(blobs[j0], merged_location(blobs, n, news, j0)));
            lemma_last_match_at_least(m, m.len() as int, d, j0);
            if j > j0 {
                if j < n {
                    assert(m[j] == with_location(blobs[j], merged_location(blobs, n, news, j)));
                    lemma_last_match_is_last(blobs, n, d, j);
                } else {
                    assert(m[j] == m.subrange(n, m.len() as int)[j - n]);
                    news.lemma_filter_pred(is_unmatched(blobs, n), j - n);
                }
            }
            assert(j == j0);
            if blobs[j0].location != Location::Synced && news[k].location != blobs[j0].location {
                assert(conflicting_arrival(blobs, n, news, j0));
            }
        } else {
            // the blob was appended, and the last blob with its digest is that one
            news.lemma_filter_contains(is_unmatched(blobs, n), k);
            let q = choose|q: int| 0 <= q < u.len() && u[q] == news[k];
            assert(m[n + q] == m.subrange(n, m.len() as int)[q]);
            lemma_last_match_at_least(m, m.len() as int, d, n + q);
            if j < n {
                assert(m[j] == with_location(blobs[j], merged_location(blobs, n, news, j)));
                lemma_last_match_at_least(blobs, n, d, j);
            }
            assert(m[j] == u[j - n]);
            assert(u.contains(m[j]));
            news.lemma_filter_contains_rev(is_unmatched(blobs, n), m[j]);
            let k2 = choose|k2: int| 0 <= k2 < news.len() && news[k2] == m[j];
            assert(news[k2].md5@ == news[k].md5@);
            assert(k2 == k);
        }
    }
    lemma_merge_all_no_change(m, news);
}

/// The blobs of the first screen of a container: an empty container merged
/// with a listing holds that listing, in order.
pub proof fn lemma_merge_into_empty(news: Seq<Blob>)
    ensures
        merge_all(Seq::empty(), 0, news) == news,
{
    lemma_merge_all_effect(Seq::empty(), 0, news);
    let r = merge_all(Seq::<Blob>::empty(), 0, news);
    assert(unmatched(Seq::empty(), 0, news) =~= news) by {
        lemma_filter_keeps_all(news, is_unmatched(Seq::empty(), 0));
    }
    assert(r.subrange(0, r.len() as int) =~= r);
}

impl CurrentContainer {
    /// A container with no blobs yet.
    pub fn new(name: String) -> (c: CurrentContainer)
        ensures
            c@ == (ContainerView { name: name@, blobs: Seq::empty() }),
    {
        CurrentContainer { name, blobs: Vec::new() }
    }

    pub fn name(&self) -> (r: &String)
        ensures
            r@ == self@.name,
    {
        &self.name
    }

    pub fn blobs(&self) -> (r: &Vec<Blob>)
        ensures
            r@ == self@.blobs,
    {
        &self.blobs
    }

    /// Merges newly listed blobs into the container (see `merge_all`).
    pub fn insert_new_blobs(&mut self, new_blobs: Vec<Blob>)
        ensures
            final(self)@.name == old(self)@.name,
            final(self)@.blobs == merge_all(
                old(self)@.blobs,
                old(self)@.blobs.len() as int,
                new_blobs@,
            ),
            merge_effect(old(self)@.blobs, new_blobs@, final(self)@.blobs),
    {
        broadcast use vstd::std_specs::hash::group_hash_axioms;

        let ghost start = self.blobs@;
        let n_old = self.blobs.len();
        let existing = index_last_digests(&self.blobs, n_old);
        let mut pending = new_blobs;
        while pending.len() > 0
            invariant
                n_old == start.len(),
                n_old <= self.blobs.len(),
                self.name@ == old(self).name@,
                forall|i: int| 0 <= i < n_old ==> #[trigger] self.blobs@[i].md5 == start[i].md5,
                forall|d: Seq<u8>|
                    d.len() == 16 ==> {
                        &&& (existing@.contains_key(digest_key(d)) <==> #[trigger] last_match(
                            start,
                            n_old as int,
                            d,
                        ) >= 0)
                        &&& existing@.contains_key(digest_key(d)) ==> existing@[digest_key(d)]
                            == last_match(start, n_old as int, d)
                    },
                merge_all(self.blobs@, n_old as int, pending@) == merge_all(
                    start,
                    n_old as int,
                    new_blobs@,
                ),
            decreases pending.len(),
        {
            let ghost before = self.blobs@;
            let ghost arriving = pending@;
            let b = pending.remove(0);
            assert(pending@ =~= arriving.drop_first());
            proof {
                lemma_last_match_same_digests(before, start, n_old as int, b.md5@);
                lemma_last_match_bounds(before, n_old as int, b.md5@);
            }
            let key = key_of_digest(&b.md5);
            match existing.get(&key) {
                Some(found) => {
                    let i = *found;
                    let here = self.blobs[i].location;
                    if here != Location::Synced && here != b.location {
                        self.blobs[i].location = Location::Synced;
                        assert(self.blobs@ =~= before.update(
                            i as int,
                            with_location(before[i as int], Location::Synced),
                        ));
                    }
                },
                None => {
                    self.blobs.push(b);
                },
            }
            assert(self.blobs@ == merge_one(before, n_old as int, arriving[0]));
        }
        proof {
            lemma_merge_all_effect(start, n_old as int, new_blobs@);
        }
    }

    /// The names under which the local folder of this container may exist:
    /// its name with each `-` kept as a space, a dash, or an underscore, in
    /// that order.
    pub fn local_directory_candidates(&self) -> (r: Vec<String>)
        ensures
            r.len() == 3,
            r[0]@ == replace_char(self@.name, '-', " "@),
            r[1]@ == replace_char(self@.name, '-', "-"@),
            r[2]@ == replace_char(self@.name, '-', "_"@),
            r[1]@ == self@.name,
    {
        proof {
            reveal_strlit("-");
            assert("-"@ =~= seq!['-']);
            lemma_replace_char_by_itself(self@.name, '-');
        }
        let mut r: Vec<String> = Vec::new();
        r.push(replace_char_with(self.name.as_str(), '-', " "));
        r.push(replace_char_with(self.name.as_str(), '-', "-"));
        r.push(replace_char_with(self.name.as_str(), '-', "_"));
        r
    }
}

/// `256` to the power `n`: one more than the largest number that `n` bytes hold.
pub open spec fn byte_range(n: nat) -> nat
    decreases n,
{
    if n == 0 {
        1
    } else {
        256 * byte_range((n - 1) as nat)
    }
}

/// A digest read as a number, its first byte lowest.
pub open spec fn digest_number(d: Seq<u8>) -> nat
    decreases d.len(),
{
    if d.len() == 0 {
        0
    } else {
        d[0] as nat + 256 * digest_number(d.drop_first())
    }
}

proof fn lemma_digest_number_bound(d: Seq<u8>)
    ensures
        digest_number(d) < byte_range(d.len()),
    decreases d.len(),
{
    if d.len() > 0 {
        lemma_digest_number_bound(d.drop_first());
    }
}

proof fn lemma_byte_range_monotone(a: nat, b: nat)
    requires
        a <= b,
    ensures
        1 <= byte_range(a) <= byte_range(b),
    decreases b,
{
    if b > a {
        lemma_byte_range_monotone(a, (b - 1) as nat);
    } else if a > 0 {
        lemma_byte_range_monotone((a - 1) as nat, (a - 1) as nat);
    }
}

/// Digests of one length with the same number are the same digest.
proof fn lemma_digest_number_injective(a: Seq<u8>, b: Seq<u8>)
    requires
        a.len() == b.len(),
        digest_number(a) == digest_number(b),
    ensures
        a == b,
    decreases a.len(),
{
    if a.len() > 0 {
        assert(a[0] == b[0]);
        lemma_digest_number_injective(a.drop_first(), b.drop_first());
        assert(a =~= seq![a[0]] + a.drop_first());
        assert(b =~= seq![b[0]] + b.drop_first());
    } else {
        assert(a =~= b);
    }
}

/// The number of a 16-byte digest, which a `u128` holds.
pub open spec fn digest_key(d: Seq<u8>) -> u128 {
    digest_number(d) as u128
}

/// Two 16-byte digests have the same key exactly when they are equal.
proof fn lemma_digest_key(a: Seq<u8>, b: Seq<u8>)
    requires
        a.len() == 16,
        b.len() == 16,
    ensures
        digest_key(a) == digest_number(a),
        (digest_key(a) == digest_key(b)) <==> (a == b),
{
    reveal_with_fuel(byte_range, 17);
    assert(byte_range(16) == 0x1_0000_0000_0000_0000_0000_0000_0000_0000);
    lemma_digest_number_bound(a);
    lemma_digest_number_bound(b);
    if digest_key(a) == digest_key(b) {
        lemma_digest_number_injective(a, b);
    }
}

/// The key under which a digest is looked up.
fn key_of_digest(md5: &[u8; 16]) -> (k: u128)
    ensures
        k == digest_key(md5@),
{
    proof {
        reveal_with_fuel(byte_range, 17);
        assert(byte_range(16) == 0x1_0000_0000_0000_0000_0000_0000_0000_0000);
    }
    let mut k: u128 = 0;
    let mut i: usize = 16;
    assert(md5@.skip(16) =~= Seq::<u8>::empty());
    while i > 0
        invariant
            i <= 16,
            md5@.len() == 16,
            byte_range(16) == 0x1_0000_0000_0000_0000_0000_0000_0000_0000,
            k == digest_number(md5@.skip(i as int)),
            k < byte_range((16 - i) as nat),
        decreases i,
    {
        i = i - 1;
        proof {
            assert(md5@.skip(i as int).drop_first() =~= md5@.skip(i + 1));
            lemma_byte_range_monotone((16 - i) as nat, 16);
        }
        k = k * 256 + md5[i] as u128;
    }
    assert(md5@.skip(0) =~= md5@);
    k
}

/// For each digest among the first `limit` blobs, the index of the last
/// blob that has it.
fn index_last_digests(blobs: &Vec<Blob>, limit: usize) -> (index: HashMap<u128, usize>)
    requires
        limit <= blobs.len(),
    ensures
        forall|d: Seq<u8>|
            d.len() == 16 ==> {
                &&& (index@.contains_key(digest_key(d)) <==> #[trigger] last_match(
                    blobs@,
                    limit as int,
                    d,
                ) >= 0)
                &&& index@.contains_key(digest_key(d)) ==> index@[digest_key(d)] == last_match(
                    blobs@,
                    limit as int,
                    d,
                )
            },
{
    broadcast use vstd::std_specs::hash::group_hash_axioms;

    let mut index: HashMap<u128, usize> = HashMap::new();
    let mut j: usize = 0;
    while j < limit
        invariant
            j <= limit <= blobs.len(),
            forall|d: Seq<u8>|
                d.len() == 16 ==> {
                    &&& (index@.contains_key(digest_key(d)) <==> #[trigger] last_match(
                        blobs@,
                        j as int,
                        d,
                    ) >= 0)
                    &&& index@.contains_key(digest_key(d)) ==> index@[digest_key(d)]
                        == last_match(blobs@, j as int, d)
                },
        decreases limit - j,
    {
        let ghost before = index@;
        let ghost dj = blobs@[j as int].md5@;
        let key = key_of_digest(&blobs[j].md5);
        index.insert(key, j);
        assert forall|d: Seq<u8>| d.len() == 16 implies {
            &&& (index@.contains_key(digest_key(d)) <==> #[trigger] last_match(
                blobs@,
                j + 1,
                d,
            ) >= 0)
            &&& index@.contains_key(digest_key(d)) ==> index@[digest_key(d)] == last_match(
                blobs@,
                j + 1,
                d,
            )
        } by {
            lemma_digest_key(d, dj);
            let old_match = last_match(blobs@, j as int, d);
            assert(before.contains_key(digest_key(d)) <==> old_match >= 0);
            assert(index@ == before.insert(key, j));
            if d == dj {
                assert(last_match(blobs@, j + 1, d) == j);
            } else {
                assert(last_match(blobs@, j + 1, d) == old_match);
                assert(digest_key(d) != key);
            }
        }
        j = j + 1;
    }
    index
}

} // verus!
