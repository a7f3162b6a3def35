//! The tag classifier: groups items by case-normalized tag and chooses one
//! representative display spelling per normalized tag.
//!
//! The model works over the sequence of tag *occurrences*: walking the items
//! in order and each item's tags in order yields a sequence of pairs of item
//! index and original spelling.  Group keys are the normalized spellings in
//! first-occurrence order; a group's members are the items carrying the key
//! (once per item, however often the key repeats on it); its display spelling
//! is the most frequent original spelling, earlier spellings winning ties.

use vstd::prelude::*;

use crate::data::Item;

verus! {

/// The Unicode lower-casing of a character sequence, as `str::to_lowercase`
/// computes it; a function of the characters alone.
pub uninterp spec fn lower_of(s: Seq<char>) -> Seq<char>;

/// Relies on `str::to_lowercase`: the returned string is the lower-cased
/// equivalent of the input, a function of the input characters alone.
#[verifier::external_body]
pub(crate) fn normalize_tag(tag: &str) -> (r: String)
    ensures
        r@ == lower_of(tag@),
{
    tag.to_lowercase()
}

/// The normalized key of one occurrence (item index, original spelling).
pub open spec fn occ_key(o: (int, Seq<char>)) -> Seq<char> {
    lower_of(o.1)
}

/// The tag occurrences contributed by one item.
pub open spec fn item_occs(i: int, tags: Seq<String>) -> Seq<(int, Seq<char>)> {
    Seq::new(tags.len(), |j: int| (i, tags[j]@))
}

/// All tag occurrences of an item list, in traversal order.
pub open spec fn occs_of(items: Seq<Item>) -> Seq<(int, Seq<char>)>
    decreases items.len(),
{
    if items.len() == 0 {
        Seq::empty()
    } else {
        occs_of(items.drop_last()) + item_occs((items.len() - 1) as int, items.last().tags@)
    }
}

/// The distinct normalized keys of an occurrence sequence, in order of first
/// occurrence.
pub open spec fn keys_dedup(os: Seq<(int, Seq<char>)>) -> Seq<Seq<char>>
    decreases os.len(),
{
    if os.len() == 0 {
        Seq::empty()
    } else {
        let pre = keys_dedup(os.drop_last());
        if pre.contains(occ_key(os.last())) {
            pre
        } else {
            pre.push(occ_key(os.last()))
        }
    }
}

/// The item indices carrying key `k`, in order of first occurrence, each
/// once.
pub open spec fn members_of(os: Seq<(int, Seq<char>)>, k: Seq<char>) -> Seq<int>
    decreases os.len(),
{
    if os.len() == 0 {
        Seq::empty()
    } else {
        let pre = members_of(os.drop_last(), k);
        let o = os.last();
        if occ_key(o) == k && !pre.contains(o.0) {
            pre.push(o.0)
        } else {
            pre
        }
    }
}

/// The distinct original spellings seen for key `k`, in order of first
/// occurrence.
pub open spec fn spellings_of(os: Seq<(int, Seq<char>)>, k: Seq<char>) -> Seq<Seq<char>>
    decreases os.len(),
{
    if os.len() == 0 {
        Seq::empty()
    } else {
        let pre = spellings_of(os.drop_last(), k);
        let o = os.last();
        if occ_key(o) == k && !pre.contains(o.1) {
            pre.push(o.1)
        } else {
            pre
        }
    }
}

/// How often spelling `sp` occurs under key `k`.
pub open spec fn spell_count(os: Seq<(int, Seq<char>)>, k: Seq<char>, sp: Seq<char>) -> int
    decreases os.len(),
{
    if os.len() == 0 {
        0
    } else {
        spell_count(os.drop_last(), k, sp) + if occ_key(os.last()) == k && os.last().1 == sp {
            1int
        } else {
            0int
        }
    }
}

/// The best spelling among the candidates `cands`: the one with the highest
/// occurrence count, earlier candidates winning ties.
pub open spec fn best_of(cands: Seq<Seq<char>>, os: Seq<(int, Seq<char>)>, k: Seq<char>) -> Seq<
    char,
>
    decreases cands.len(),
{
    if cands.len() == 0 {
        Seq::empty()
    } else if cands.len() == 1 {
        cands[0]
    } else {
        let pre = best_of(cands.drop_last(), os, k);
        if spell_count(os, k, cands.last()) > spell_count(os, k, pre) {
            cands.last()
        } else {
            pre
        }
    }
}

/// The display spelling chosen for key `k`.
pub open spec fn display_of(os: Seq<(int, Seq<char>)>, k: Seq<char>) -> Seq<char> {
    best_of(spellings_of(os, k), os, k)
}

/// One group of the classification: the normalized key, the chosen display
/// spelling, and the indices of the member items.
pub struct TagGroup {
    pub normalized: String,
    pub display: String,
    pub members: Vec<usize>,
}

/// What it means for `gs` to be the classification of `items`: one group per
/// distinct normalized key in first-occurrence order, with exactly the
/// carrying items as members and the most frequent spelling as display.
pub open spec fn models_classification(items: Seq<Item>, gs: Seq<TagGroup>) -> bool {
    let os = occs_of(items);
    &&& gs.map_values(|g: TagGroup| g.normalized@) == keys_dedup(os)
    &&& forall|i: int|
        0 <= i < gs.len() ==> (#[trigger] gs[i]).members@.map_values(|m: usize| m as int)
            == members_of(os, gs[i].normalized@)
    &&& forall|i: int|
        0 <= i < gs.len() ==> (#[trigger] gs[i]).display@ == display_of(os, gs[i].normalized@)
    &&& forall|i: int, j: int|
        0 <= i < gs.len() && 0 <= j < gs[i].members@.len() ==> (#[trigger] gs[i].members@[j])
            < items.len()
}

/// The classification is a function of the input items: any two results that
/// model the same item list agree group by group, in order, members and
/// display spelling included.  Re-running the classifier can therefore never
/// change the grouping.
pub proof fn lemma_classify_deterministic(items: Seq<Item>, g1: Seq<TagGroup>, g2: Seq<TagGroup>)
    requires
        models_classification(items, g1),
        models_classification(items, g2),
    ensures
        g1.len() == g2.len(),
        forall|i: int|
            0 <= i < g1.len() ==> (#[trigger] g1[i]).normalized@ == g2[i].normalized@ && g1[
                i
            ].display@ == g2[i].display@ && g1[i].members@ == g2[i].members@,
{
    let os = occs_of(items);
    let m1 = g1.map_values(|g: TagGroup| g.normalized@);
    let m2 = g2.map_values(|g: TagGroup| g.normalized@);
    assert(m1.len() == g1.len());
    assert(m2.len() == g2.len());
    assert forall|i: int| 0 <= i < g1.len() implies (#[trigger] g1[i]).normalized@ == g2[
        i
    ].normalized@ && g1[i].display@ == g2[i].display@ && g1[i].members@ == g2[i].members@ by {
        assert(m1[i] == g1[i].normalized@);
        assert(m2[i] == g2[i].normalized@);
        let a = g1[i].members@.map_values(|m: usize| m as int);
        let b = g2[i].members@.map_values(|m: usize| m as int);
        assert(a == b);
        assert(a.len() == g1[i].members@.len());
        assert(b.len() == g2[i].members@.len());
        assert forall|j: int| 0 <= j < g1[i].members@.len() implies g1[i].members@[j] == g2[
            i
        ].members@[j] by {
            assert(a[j] == g1[i].members@[j] as int);
            assert(b[j] == g2[i].members@[j] as int);
        }
        assert(g1[i].members@ =~= g2[i].members@);
    }
}

/// Internal accumulator for one group while the occurrence walk runs.
struct GroupBuild {
    normalized: String,
    spells: Vec<(String, usize)>,
    members: Vec<usize>,
}

/// The accumulator state after processing the occurrence prefix `p`: the
/// groups list the keys seen so far in order, and each group carries exactly
/// the members, spellings and spelling counts of its key within `p`.
spec fn builds_ok(p: Seq<(int, Seq<char>)>, gs: Seq<GroupBuild>, bound: int) -> bool {
    &&& gs.map_values(|g: GroupBuild| g.normalized@) == keys_dedup(p)
    &&& forall|i: int|
        0 <= i < gs.len() ==> (#[trigger] gs[i]).members@.map_values(|m: usize| m as int)
            == members_of(p, gs[i].normalized@)
    &&& forall|i: int|
        0 <= i < gs.len() ==> (#[trigger] gs[i]).spells@.map_values(|s: (String, usize)| s.0@)
            == spellings_of(p, gs[i].normalized@)
    &&& forall|i: int, j: int|
        0 <= i < gs.len() && 0 <= j < gs[i].spells@.len() ==> (#[trigger] gs[i].spells@[j]).1
            as int == spell_count(p, gs[i].normalized@, gs[i].spells@[j].0@)
    &&& forall|i: int| 0 <= i < gs.len() ==> (#[trigger] gs[i]).spells@.len() >= 1
    &&& forall|i: int, j: int|
        0 <= i < gs.len() && 0 <= j < gs[i].members@.len() ==> (#[trigger] gs[i].members@[j])
            < bound
}

/// Appending an occurrence of a different key changes nothing for key `k`.
proof fn lemma_step_other_key(p: Seq<(int, Seq<char>)>, o: (int, Seq<char>), k: Seq<char>)
    requires
        occ_key(o) != k,
    ensures
        members_of(p.push(o), k) == members_of(p, k),
        spellings_of(p.push(o), k) == spellings_of(p, k),
        forall|sp: Seq<char>| #[trigger] spell_count(p.push(o), k, sp) == spell_count(p, k, sp),
{
    assert(p.push(o).drop_last() =~= p);
    assert(p.push(o).last() == o);
}

/// Appending an occurrence of key `k` extends the members on a first visit
/// of the item, the spellings on a first visit of the spelling, and always
/// bumps the spelling's count by one.
proof fn lemma_step_same_key(p: Seq<(int, Seq<char>)>, o: (int, Seq<char>))
    ensures
        members_of(p.push(o), occ_key(o)) == (if members_of(p, occ_key(o)).contains(o.0) {
            members_of(p, occ_key(o))
        } else {
            members_of(p, occ_key(o)).push(o.0)
        }),
        spellings_of(p.push(o), occ_key(o)) == (if spellings_of(p, occ_key(o)).contains(o.1) {
            spellings_of(p, occ_key(o))
        } else {
            spellings_of(p, occ_key(o)).push(o.1)
        }),
        spell_count(p.push(o), occ_key(o), o.1) == spell_count(p, occ_key(o), o.1) + 1,
        forall|sp: Seq<char>|
            sp != o.1 ==> #[trigger] spell_count(p.push(o), occ_key(o), sp) == spell_count(
                p,
                occ_key(o),
                sp,
            ),
        keys_dedup(p.push(o)) == (if keys_dedup(p).contains(occ_key(o)) {
            keys_dedup(p)
        } else {
            keys_dedup(p).push(occ_key(o))
        }),
{
    assert(p.push(o).drop_last() =~= p);
    assert(p.push(o).last() == o);
}

/// Appending an occurrence keeps the key list when the key was seen.
proof fn lemma_step_keys(p: Seq<(int, Seq<char>)>, o: (int, Seq<char>))
    ensures
        keys_dedup(p.push(o)) == (if keys_dedup(p).contains(occ_key(o)) {
            keys_dedup(p)
        } else {
            keys_dedup(p).push(occ_key(o))
        }),
{
    assert(p.push(o).drop_last() =~= p);
    assert(p.push(o).last() == o);
}

/// Finds the group holding normalized key `norm`, if any.
fn find_group(gs: &Vec<GroupBuild>, norm: &String) -> (r: Option<usize>)
    ensures
        match r {
            Option::Some(g) => g < gs@.len() && gs@[g as int].normalized@ == norm@,
            Option::None => forall|i: int|
                0 <= i < gs@.len() ==> (#[trigger] gs@[i]).normalized@ != norm@,
        },
{
    let mut i: usize = 0;
    while i < gs.len()
        invariant
            i <= gs@.len(),
            forall|j: int| 0 <= j < i ==> (#[trigger] gs@[j]).normalized@ != norm@,
        decreases gs@.len() - i,
    {
        if gs[i].normalized == *norm {
            return Option::Some(i);
        }
        i = i + 1;
    }
    Option::None
}

/// Finds the entry for spelling `sp` in a spelling-count list, if any.
fn find_spell(spells: &Vec<(String, usize)>, sp: &String) -> (r: Option<usize>)
    ensures
        match r {
            Option::Some(s) => s < spells@.len() && spells@[s as int].0@ == sp@,
            Option::None => forall|i: int|
                0 <= i < spells@.len() ==> (#[trigger] spells@[i]).0@ != sp@,
        },
{
    let mut i: usize = 0;
    while i < spells.len()
        invariant
            i <= spells@.len(),
            forall|j: int| 0 <= j < i ==> (#[trigger] spells@[j]).0@ != sp@,
        decreases spells@.len() - i,
    {
        if spells[i].0 == *sp {
            return Option::Some(i);
        }
        i = i + 1;
    }
    Option::None
}

/// Whether `v` holds `x`.
fn contains_usize(v: &Vec<usize>, x: usize) -> (r: bool)
    ensures
        r == v@.contains(x),
{
    let mut i: usize = 0;
    while i < v.len()
        invariant
            i <= v@.len(),
            forall|j: int| 0 <= j < i ==> v@[j] != x,
        decreases v@.len() - i,
    {
        if v[i] == x {
            return true;
        }
        i = i + 1;
    }
    false
}

/// A `Vec<usize>` holds `x` exactly when its `int` image holds `x as int`.
proof fn lemma_map_int_contains(s: Seq<usize>, x: usize)
    ensures
        s.map_values(|m: usize| m as int).contains(x as int) == s.contains(x),
{
    let m = s.map_values(|mm: usize| mm as int);
    if s.contains(x) {
        let i = choose|i: int| 0 <= i < s.len() && s[i] == x;
        assert(m[i] == x as int);
        assert(m.contains(x as int));
    }
    if m.contains(x as int) {
        let i = choose|i: int| 0 <= i < m.len() && m[i] == x as int;
        assert(s[i] as int == x as int);
        assert(s.contains(x));
    }
}

/// Counts are bounded by the occurrences, and a positive count means the
/// spelling was seen.
proof fn lemma_spell_count_seen(os: Seq<(int, Seq<char>)>, k: Seq<char>, sp: Seq<char>)
    ensures
        0 <= spell_count(os, k, sp) <= os.len(),
        spell_count(os, k, sp) > 0 ==> spellings_of(os, k).contains(sp),
    decreases os.len(),
{
    if os.len() > 0 {
        lemma_spell_count_seen(os.drop_last(), k, sp);
        let pre = spellings_of(os.drop_last(), k);
        assert forall|x: Seq<char>| pre.contains(x) implies spellings_of(os, k).contains(x) by {
            let i = choose|i: int| 0 <= i < pre.len() && pre[i] == x;
            assert(spellings_of(os, k)[i] == x);
        }
        if occ_key(os.last()) == k && os.last().1 == sp && !pre.contains(sp) {
            assert(spellings_of(os, k).last() == sp);
        }
    }
}

/// A key never seen in `os` has no members, no spellings and no counts.
proof fn lemma_unseen_key(os: Seq<(int, Seq<char>)>, k: Seq<char>)
    requires
        !keys_dedup(os).contains(k),
    ensures
        members_of(os, k) == Seq::<int>::empty(),
        spellings_of(os, k) == Seq::<Seq<char>>::empty(),
        forall|sp: Seq<char>| #[trigger] spell_count(os, k, sp) == 0,
    decreases os.len(),
{
    if os.len() > 0 {
        let pre = keys_dedup(os.drop_last());
        assert forall|x: Seq<char>| pre.contains(x) implies keys_dedup(os).contains(x) by {
            let i = choose|i: int| 0 <= i < pre.len() && pre[i] == x;
            assert(keys_dedup(os)[i] == x);
        }
        assert(!pre.contains(k));
        lemma_unseen_key(os.drop_last(), k);
        assert(occ_key(os.last()) != k) by {
            if occ_key(os.last()) == k {
                assert(keys_dedup(os).last() == k);
                assert(keys_dedup(os).contains(k));
            }
        };
        assert forall|sp: Seq<char>| #[trigger] spell_count(os, k, sp) == 0 by {
            assert(spell_count(os.drop_last(), k, sp) == 0);
        }
    }
}

/// The deduplicated key list has no repeated keys.
proof fn lemma_keys_dedup_distinct(os: Seq<(int, Seq<char>)>)
    ensures
        forall|i: int, j: int|
            0 <= i < j < keys_dedup(os).len() ==> keys_dedup(os)[i] != keys_dedup(os)[j],
    decreases os.len(),
{
    if os.len() > 0 {
        lemma_keys_dedup_distinct(os.drop_last());
        let pre = keys_dedup(os.drop_last());
        let ks = keys_dedup(os);
        if !pre.contains(occ_key(os.last())) {
            assert forall|i: int, j: int| 0 <= i < j < ks.len() implies ks[i] != ks[j] by {
                if j == ks.len() - 1 {
                    assert(pre[i] == ks[i]);
                    if ks[i] == ks[j] {
                        assert(pre.contains(ks[j]));
                    }
                } else {
                    assert(pre[i] == ks[i] && pre[j] == ks[j]);
                }
            }
        }
    }
}

/// The spelling list of a key has no repeated spellings.
proof fn lemma_spellings_distinct(os: Seq<(int, Seq<char>)>, k: Seq<char>)
    ensures
        forall|i: int, j: int|
            0 <= i < j < spellings_of(os, k).len() ==> spellings_of(os, k)[i] != spellings_of(
                os,
                k,
            )[j],
    decreases os.len(),
{
    if os.len() > 0 {
        lemma_spellings_distinct(os.drop_last(), k);
        let pre = spellings_of(os.drop_last(), k);
        let ks = spellings_of(os, k);
        if occ_key(os.last()) == k && !pre.contains(os.last().1) {
            assert forall|i: int, j: int| 0 <= i < j < ks.len() implies ks[i] != ks[j] by {
                if j == ks.len() - 1 {
                    assert(pre[i] == ks[i]);
                    if ks[i] == ks[j] {
                        assert(pre.contains(ks[j]));
                    }
                } else {
                    assert(pre[i] == ks[i] && pre[j] == ks[j]);
                }
            }
        }
    }
}

/// The occurrences of a take-prefix of the items are no more than those of
/// the whole list.
proof fn lemma_occs_take_le(items: Seq<Item>, m: int)
    requires
        0 <= m <= items.len(),
    ensures
        occs_of(items.take(m)).len() <= occs_of(items).len(),
    decreases items.len() - m,
{
    if m < items.len() {
        lemma_occs_take_le(items, m + 1);
        assert(items.take(m + 1).drop_last() =~= items.take(m));
        assert(items.take(m + 1).last() == items[m]);
        assert(occs_of(items.take(m + 1)) == occs_of(items.take(m)) + item_occs(
            m,
            items[m].tags@,
        ));
    } else {
        assert(items.take(m) =~= items);
    }
}

/// Groups items by normalized tag.  One group per distinct normalized key,
/// in first-occurrence order; each group lists the indices of the items that
/// carry the key and the display spelling chosen for it.
pub fn classify_by_tags(items: &Vec<Item>) -> (gs: Vec<TagGroup>)
    requires
        occs_of(items@).len() <= usize::MAX,
    ensures
        models_classification(items@, gs@),
{
    let ghost os = occs_of(items@);
    let mut groups: Vec<GroupBuild> = Vec::new();
    let mut i: usize = 0;
    proof {
        assert(items@.take(0) =~= Seq::<Item>::empty());
        assert(occs_of(items@.take(0)) =~= Seq::<(int, Seq<char>)>::empty());
        assert(groups@.map_values(|g: GroupBuild| g.normalized@) =~= keys_dedup(
            occs_of(items@.take(0)),
        ));
    }
    while i < items.len()
        invariant
            i <= items@.len(),
            os == occs_of(items@),
            os.len() <= usize::MAX,
            builds_ok(occs_of(items@.take(i as int)), groups@, i as int),
        decreases items@.len() - i,
    {
        let ghost pi = occs_of(items@.take(i as int));
        let tlen = items[i].tags.len();
        let mut j: usize = 0;
        proof {
            assert(item_occs(i as int, items@[i as int].tags@.take(0)) =~= Seq::<(
                int,
                Seq<char>,
            )>::empty());
            assert(pi + item_occs(i as int, items@[i as int].tags@.take(0)) =~= pi);
        }
        while j < tlen
            invariant
                i < items@.len(),
                j <= tlen,
                tlen == items@[i as int].tags@.len(),
                os == occs_of(items@),
                os.len() <= usize::MAX,
                pi == occs_of(items@.take(i as int)),
                builds_ok(
                    pi + item_occs(i as int, items@[i as int].tags@.take(j as int)),
                    groups@,
                    i as int + 1,
                ),
            decreases tlen - j,
        {
            let ghost p = pi + item_occs(i as int, items@[i as int].tags@.take(j as int));
            let ghost o = (i as int, items@[i as int].tags@[j as int]@);
            let ghost p2 = p.push(o);
            proof {
                assert(item_occs(i as int, items@[i as int].tags@.take(j + 1)) =~= item_occs(
                    i as int,
                    items@[i as int].tags@.take(j as int),
                ).push(o));
                assert(pi + item_occs(i as int, items@[i as int].tags@.take(j + 1)) =~= p2);
                // the extended prefix still fits in the full occurrence list
                lemma_occs_take_le(items@, i as int + 1);
                assert(items@.take(i as int + 1).drop_last() =~= items@.take(i as int));
                assert(items@.take(i as int + 1).last() == items@[i as int]);
                assert(occs_of(items@.take(i as int + 1)) == pi + item_occs(
                    i as int,
                    items@[i as int].tags@,
                ));
                assert(p2.len() == pi.len() + j + 1);
                assert(p2.len() <= occs_of(items@.take(i as int + 1)).len());
                assert(p2.len() <= os.len());
                lemma_keys_dedup_distinct(p);
            }
            let tag: &String = &items[i].tags[j];
            let norm = normalize_tag(tag.as_str());
            proof {
                assert(o.1 == tag@);
                assert(occ_key(o) == norm@);
            }
            let ghost gpre = groups@;
            match find_group(&groups, &norm) {
                Option::Some(g) => {
                    proof {
                        assert(gpre.map_values(|gb: GroupBuild| gb.normalized@)[g as int]
                            == norm@);
                        assert(keys_dedup(p).contains(norm@));
                        lemma_step_keys(p, o);
                        lemma_step_same_key(p, o);
                        lemma_spellings_distinct(p, norm@);
                        lemma_spell_count_seen(p, norm@, tag@);
                    }
                    let mut gb = groups.remove(g);
                    let ghost gb0 = gb;
                    proof {
                        assert(gb0 == gpre[g as int]);
                        assert(gb0.normalized@ == norm@);
                        assert(gb0.spells@.map_values(|s: (String, usize)| s.0@) == spellings_of(
                            p,
                            norm@,
                        ));
                        assert(gb0.members@.map_values(|m: usize| m as int) == members_of(
                            p,
                            norm@,
                        ));
                        assert forall|y: int| 0 <= y < gb0.spells@.len() implies (
                        #[trigger] gb0.spells@[y]).1 as int == spell_count(
                            p,
                            norm@,
                            gb0.spells@[y].0@,
                        ) by {
                            assert(gpre[g as int].spells@[y] == gb0.spells@[y]);
                        }
                    }
                    // count this spelling
                    match find_spell(&gb.spells, tag) {
                        Option::Some(si) => {
                            proof {
                                assert(gb.spells@[si as int].1 as int == spell_count(
                                    p,
                                    norm@,
                                    gb.spells@[si as int].0@,
                                ));
                                assert(gb.spells@[si as int].1 as int <= p.len());
                                assert(p.len() < p2.len());
                                assert(gb.spells@[si as int].1 < usize::MAX);
                            }
                            let entry = gb.spells.remove(si);
                            let entry2 = (entry.0, entry.1 + 1);
                            gb.spells.insert(si, entry2);
                            proof {
                                let ss0 = gb0.spells@.map_values(|s: (String, usize)| s.0@);
                                let ss2 = gb.spells@.map_values(|s: (String, usize)| s.0@);
                                assert(gb.spells@ =~= gb0.spells@.update(
                                    si as int,
                                    (gb0.spells@[si as int].0, (gb0.spells@[si as int].1
                                        + 1) as usize),
                                ));
                                assert(ss0[si as int] == tag@);
                                assert(spellings_of(p, norm@).contains(tag@));
                                assert(spellings_of(p2, norm@) == spellings_of(p, norm@));
                                assert(ss2 =~= ss0);
                                assert(ss2 == spellings_of(p2, norm@));
                                assert forall|y: int| 0 <= y < gb.spells@.len() implies (
                                #[trigger] gb.spells@[y]).1 as int == spell_count(
                                    p2,
                                    norm@,
                                    gb.spells@[y].0@,
                                ) by {
                                    assert(ss0[y] == gb0.spells@[y].0@);
                                    if y == si as int {
                                        assert(gb.spells@[y].0@ == tag@);
                                        assert(spell_count(p2, norm@, tag@) == spell_count(
                                            p,
                                            norm@,
                                            tag@,
                                        ) + 1);
                                    } else {
                                        assert(gb.spells@[y] == gb0.spells@[y]);
                                        assert(ss0[y] != ss0[si as int]);
                                        assert(spell_count(p2, norm@, gb.spells@[y].0@)
                                            == spell_count(p, norm@, gb.spells@[y].0@));
                                    }
                                }
                            }
                        },
                        Option::None => {
                            proof {
                                let ss0 = gb.spells@.map_values(|s: (String, usize)| s.0@);
                                assert forall|x: int|
                                    0 <= x < spellings_of(p, norm@).len() implies spellings_of(
                                    p,
                                    norm@,
                                )[x] != tag@ by {
                                    assert(ss0[x] == gb.spells@[x].0@);
                                }
                                assert(!spellings_of(p, norm@).contains(tag@));
                                assert(spell_count(p, norm@, tag@) == 0);
                            }
                            let sp = tag.clone();
                            gb.spells.push((sp, 1));
                            proof {
                                let ss0 = gb0.spells@.map_values(|s: (String, usize)| s.0@);
                                let ss2 = gb.spells@.map_values(|s: (String, usize)| s.0@);
                                assert(gb.spells@ =~= gb0.spells@.push((gb.spells@[
                                    gb.spells@.len() - 1
                                ].0, 1usize)));
                                assert(gb.spells@[gb.spells@.len() - 1].0@ == tag@);
                                assert(spellings_of(p2, norm@) == spellings_of(p, norm@).push(
                                    tag@,
                                ));
                                assert(ss2 =~= ss0.push(tag@));
                                assert(ss2 == spellings_of(p2, norm@));
                                assert forall|y: int| 0 <= y < gb.spells@.len() implies (
                                #[trigger] gb.spells@[y]).1 as int == spell_count(
                                    p2,
                                    norm@,
                                    gb.spells@[y].0@,
                                ) by {
                                    if y < gb0.spells@.len() {
                                        assert(gb.spells@[y] == gb0.spells@[y]);
                                        assert(ss0[y] == gb0.spells@[y].0@);
                                        assert(ss0[y] != tag@);
                                        assert(spell_count(p2, norm@, gb.spells@[y].0@)
                                            == spell_count(p, norm@, gb.spells@[y].0@));
                                    } else {
                                        assert(gb.spells@[y].0@ == tag@);
                                        assert(gb.spells@[y].1 == 1usize);
                                        assert(spell_count(p2, norm@, tag@) == 1);
                                    }
                                }
                            }
                        },
                    }
                    // record the member once per item
                    let already = contains_usize(&gb.members, i);
                    proof {
                        lemma_map_int_contains(gb0.members@, i);
                    }
                    if !already {
                        gb.members.push(i);
                    }
                    proof {
                        let mm0 = gb0.members@.map_values(|m: usize| m as int);
                        let mm2 = gb.members@.map_values(|m: usize| m as int);
                        if !gb0.members@.contains(i) {
                            assert(gb.members@ == gb0.members@.push(i));
                            assert(mm2 =~= mm0.push(i as int));
                        } else {
                            assert(mm2 == mm0);
                        }
                        assert(mm2 == members_of(p2, norm@));
                    }
                    let ghost gb2 = gb;
                    groups.insert(g, gb);
                    proof {
                        assert(groups@ =~= gpre.update(g as int, gb2));
                        assert forall|x: int|
                            0 <= x < gpre.len() && x != g as int implies (
                        #[trigger] gpre[x]).normalized@ != norm@ by {
                            let m = gpre.map_values(|gg: GroupBuild| gg.normalized@);
                            assert(m[x] == gpre[x].normalized@);
                            assert(m[g as int] == norm@);
                            lemma_keys_dedup_distinct(p);
                        }
                        assert forall|x: int|
                            0 <= x < gpre.len() && x != g as int implies members_of(
                            p2,
                            (#[trigger] gpre[x]).normalized@,
                        ) == members_of(p, gpre[x].normalized@) && spellings_of(
                            p2,
                            gpre[x].normalized@,
                        ) == spellings_of(p, gpre[x].normalized@) && (forall|sp: Seq<char>|
                            #[trigger] spell_count(p2, gpre[x].normalized@, sp) == spell_count(
                                p,
                                gpre[x].normalized@,
                                sp,
                            )) by {
                            lemma_step_other_key(p, o, gpre[x].normalized@);
                        }
                        assert(groups@.map_values(|gg: GroupBuild| gg.normalized@)
                            =~= keys_dedup(p2));
                        assert(builds_ok(p2, groups@, i as int + 1)) by {
                            assert forall|x: int| 0 <= x < groups@.len() implies (
                            #[trigger] groups@[x]).members@.map_values(|m: usize| m as int)
                                == members_of(p2, groups@[x].normalized@) by {
                                if x != g as int {
                                    assert(groups@[x] == gpre[x]);
                                }
                            }
                            assert forall|x: int| 0 <= x < groups@.len() implies (
                            #[trigger] groups@[x]).spells@.map_values(|s: (String, usize)| s.0@)
                                == spellings_of(p2, groups@[x].normalized@) by {
                                if x != g as int {
                                    assert(groups@[x] == gpre[x]);
                                }
                            }
                            assert forall|x: int, y: int|
                                0 <= x < groups@.len() && 0 <= y
                                    < groups@[x].spells@.len() implies (
                            #[trigger] groups@[x].spells@[y]).1 as int == spell_count(
                                p2,
                                groups@[x].normalized@,
                                groups@[x].spells@[y].0@,
                            ) by {
                                if x != g as int {
                                    assert(groups@[x] == gpre[x]);
                                    assert(gpre[x].spells@[y].1 as int == spell_count(
                                        p,
                                        gpre[x].normalized@,
                                        gpre[x].spells@[y].0@,
                                    ));
                                }
                            }
                        };
                    }
                },
                Option::None => {
                    proof {
                        let m = gpre.map_values(|gg: GroupBuild| gg.normalized@);
                        assert forall|idx: int| 0 <= idx < m.len() implies m[idx] != norm@ by {
                            assert(m[idx] == gpre[idx].normalized@);
                        }
                        assert(!keys_dedup(p).contains(norm@)) by {
                            if keys_dedup(p).contains(norm@) {
                                let idx = choose|idx: int|
                                    0 <= idx < keys_dedup(p).len() && keys_dedup(p)[idx] == norm@;
                                assert(m[idx] == norm@);
                            }
                        };
                        lemma_unseen_key(p, norm@);
                        lemma_step_keys(p, o);
                        lemma_step_same_key(p, o);
                    }
                    let sp = tag.clone();
                    let mut spells: Vec<(String, usize)> = Vec::new();
                    spells.push((sp, 1));
                    let mut members: Vec<usize> = Vec::new();
                    members.push(i);
                    let newgroup = GroupBuild { normalized: norm, spells, members };
                    let ghost gb2 = newgroup;
                    groups.push(newgroup);
                    proof {
                        assert(groups@ =~= gpre.push(gb2));
                        assert forall|x: int| 0 <= x < gpre.len() implies members_of(
                            p2,
                            gpre[x].normalized@,
                        ) == members_of(p, gpre[x].normalized@) && spellings_of(
                            p2,
                            gpre[x].normalized@,
                        ) == spellings_of(p, gpre[x].normalized@) by {
                            lemma_step_other_key(p, o, gpre[x].normalized@);
                        }
                        assert forall|x: int, y: int|
                            0 <= x < gpre.len() && 0 <= y < gpre[x].spells@.len() implies (
                        gpre[x].spells@[y]).1 as int == spell_count(
                            p2,
                            gpre[x].normalized@,
                            gpre[x].spells@[y].0@,
                        ) by {
                            lemma_step_other_key(p, o, gpre[x].normalized@);
                        }
                        assert(groups@.map_values(|gg: GroupBuild| gg.normalized@)
                            =~= keys_dedup(p).push(norm@));
                        assert(members_of(p2, norm@) =~= Seq::<int>::empty().push(i as int));
                        assert(gb2.members@.map_values(|m: usize| m as int) =~= Seq::<
                            int,
                        >::empty().push(i as int));
                        assert(spellings_of(p2, norm@) =~= Seq::<Seq<char>>::empty().push(tag@));
                        assert(gb2.spells@.map_values(|s: (String, usize)| s.0@) =~= Seq::<
                            Seq<char>,
                        >::empty().push(tag@));
                        assert(spell_count(p2, norm@, tag@) == 1);
                        assert(builds_ok(p2, groups@, i as int + 1));
                    }
                },
            }
            j = j + 1;
        }
        proof {
            assert(items@.take(i as int + 1).drop_last() =~= items@.take(i as int));
            assert(items@.take(i as int + 1).last() == items@[i as int]);
            assert(items@[i as int].tags@.take(tlen as int) =~= items@[i as int].tags@);
            assert(occs_of(items@.take(i as int + 1)) == pi + item_occs(
                i as int,
                items@[i as int].tags@,
            ));
        }
        i = i + 1;
    }
    proof {
        assert(items@.take(items@.len() as int) =~= items@);
    }
    // pick each group's display spelling and publish the groups
    let mut res: Vec<TagGroup> = Vec::new();
    let ghost done = groups@;
    let mut gi: usize = 0;
    while gi < groups.len()
        invariant
            gi <= groups@.len(),
            groups@ == done,
            os == occs_of(items@),
            builds_ok(os, done, items@.len() as int),
            res@.len() == gi,
            forall|x: int| 0 <= x < gi ==> (#[trigger] res@[x]).normalized@ == done[x].normalized@,
            forall|x: int| 0 <= x < gi ==> (#[trigger] res@[x]).members@ == done[x].members@,
            forall|x: int|
                0 <= x < gi ==> (#[trigger] res@[x]).display@ == display_of(
                    os,
                    done[x].normalized@,
                ),
        decreases groups@.len() - gi,
    {
        let gb = &groups[gi];
        let ghost k = gb.normalized@;
        let ghost cands = spellings_of(os, k);
        let slen = gb.spells.len();
        proof {
            assert(gb.spells@.map_values(|s: (String, usize)| s.0@) == cands);
            assert(cands.len() == slen);
            assert(slen >= 1);
            assert(cands.take(1).len() == 1);
            assert(cands.take(1)[0] == cands[0]);
            assert(gb.spells@[0].0@ == cands[0]);
            assert(best_of(cands.take(1), os, k) == cands[0]);
        }
        let mut bi: usize = 0;
        let mut t: usize = 1;
        while t < slen
            invariant
                1 <= t <= slen,
                bi < t,
                gi < groups@.len(),
                groups@ == done,
                *gb == done[gi as int],
                os == occs_of(items@),
                builds_ok(os, done, items@.len() as int),
                k == gb.normalized@,
                cands == spellings_of(os, k),
                slen == gb.spells@.len(),
                cands.len() == slen,
                gb.spells@.map_values(|s: (String, usize)| s.0@) == cands,
                gb.spells@[bi as int].0@ == best_of(cands.take(t as int), os, k),
            decreases slen - t,
        {
            proof {
                assert(cands.take(t as int + 1).drop_last() =~= cands.take(t as int));
                assert(cands.take(t as int + 1).last() == cands[t as int]);
                assert(gb.spells@[t as int].0@ == cands[t as int]);
                assert(gb.spells@[t as int].1 as int == spell_count(os, k, gb.spells@[t as int].0@));
                assert(gb.spells@[bi as int].1 as int == spell_count(
                    os,
                    k,
                    gb.spells@[bi as int].0@,
                ));
            }
            if gb.spells[t].1 > gb.spells[bi].1 {
                bi = t;
            }
            t = t + 1;
        }
        proof {
            assert(cands.take(slen as int) =~= cands);
        }
        let display = gb.spells[bi].0.clone();
        let normalized = gb.normalized.clone();
        let members = clone_usizes(&gb.members);
        res.push(TagGroup { normalized, display, members });
        gi = gi + 1;
    }
    proof {
        assert(res@.map_values(|g: TagGroup| g.normalized@) =~= done.map_values(
            |g: GroupBuild| g.normalized@,
        ));
        assert forall|x: int| 0 <= x < res@.len() implies (#[trigger] res@[x]).members@.map_values(
            |m: usize| m as int,
        ) == members_of(os, res@[x].normalized@) by {
            assert(res@[x].members@ == done[x].members@);
            assert(res@[x].normalized@ == done[x].normalized@);
        }
    }
    res
}

/// Copies a vector of indices.
fn clone_usizes(v: &Vec<usize>) -> (r: Vec<usize>)
    ensures
        r@ == v@,
{
    let mut r: Vec<usize> = Vec::new();
    let mut i: usize = 0;
    while i < v.len()
        invariant
            i <= v@.len(),
            r@ == v@.take(i as int),
        decreases v@.len() - i,
    {
        r.push(v[i]);
        proof {
            assert(v@.take(i as int + 1) =~= v@.take(i as int).push(v@[i as int]));
        }
        i = i + 1;
    }
    proof {
        assert(v@.take(v@.len() as int) =~= v@);
    }
    r
}

} // verus!
