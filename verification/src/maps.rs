//! The per-scope mutable state of a constructed encoder: an ordered mapping
//! from tag to encoded content (so SET fields come out in canonical tag
//! order whatever order they were supplied in), and an ordered mapping from
//! tag to presence flag for OPTIONAL/DEFAULT fields.

use vstd::prelude::*;
use vstd::pervasive::VecAdditionalExecFns;
use crate::bits::BitBuffer;
use crate::tag::Tag;

verus! {

/// Entries in strictly ascending tag order.
pub open spec fn entries_sorted(s: Seq<(Tag, BitBuffer)>) -> bool {
    forall|i: int, j: int|
        0 <= i < j < s.len() ==> #[trigger] s[i].0.key() < #[trigger] s[j].0.key()
}

/// The mapping that an entry list denotes: later entries win.
pub open spec fn map_of(s: Seq<(Tag, BitBuffer)>) -> Map<int, Seq<bool>>
    decreases s.len(),
{
    if s.len() == 0 {
        Map::empty()
    } else {
        map_of(s.drop_last()).insert(s.last().0.key(), s.last().1@)
    }
}

/// The concatenation of every entry's content, in list order.
pub open spec fn concat_entries(s: Seq<(Tag, BitBuffer)>) -> Seq<bool>
    decreases s.len(),
{
    if s.len() == 0 {
        Seq::empty()
    } else {
        concat_entries(s.drop_last()) + s.last().1@
    }
}

/// The domain of the denoted mapping is exactly the set of keys in the list.
pub proof fn lemma_map_of_dom(s: Seq<(Tag, BitBuffer)>)
    ensures
        forall|k: int|
            #[trigger] map_of(s).dom().contains(k) <==> exists|i: int|
                0 <= i < s.len() && #[trigger] s[i].0.key() == k,
    decreases s.len(),
{
    if s.len() > 0 {
        let dl = s.drop_last();
        lemma_map_of_dom(dl);
        assert forall|k: int| #[trigger] map_of(s).dom().contains(k) implies exists|i: int|
            0 <= i < s.len() && #[trigger] s[i].0.key() == k by {
            if k == s.last().0.key() {
                assert(s[s.len() - 1].0.key() == k);
            } else {
                assert(map_of(dl).dom().contains(k));
                let i = choose|i: int| 0 <= i < dl.len() && #[trigger] dl[i].0.key() == k;
                assert(s[i].0.key() == k);
            }
        }
        assert forall|k: int|
            (exists|i: int| 0 <= i < s.len() && #[trigger] s[i].0.key() == k) implies #[trigger]
        map_of(s).dom().contains(k) by {
            let i = choose|i: int| 0 <= i < s.len() && #[trigger] s[i].0.key() == k;
            if i == s.len() - 1 {
            } else {
                assert(dl[i].0.key() == k);
                assert(map_of(dl).dom().contains(k));
            }
        }
    }
}

/// With distinct keys, looking an entry's key up yields that entry's content.
pub proof fn lemma_map_of_lookup(s: Seq<(Tag, BitBuffer)>)
    requires
        forall|i: int, j: int|
            0 <= i < j < s.len() ==> #[trigger] s[i].0.key() != #[trigger] s[j].0.key(),
    ensures
        forall|i: int|
            0 <= i < s.len() ==> map_of(s).dom().contains(#[trigger] s[i].0.key()) && map_of(
                s,
            )[s[i].0.key()] == s[i].1@,
    decreases s.len(),
{
    if s.len() > 0 {
        let dl = s.drop_last();
        lemma_map_of_lookup(dl);
        assert forall|i: int| 0 <= i < s.len() implies map_of(s).dom().contains(
            #[trigger] s[i].0.key(),
        ) && map_of(s)[s[i].0.key()] == s[i].1@ by {
            if i < s.len() - 1 {
                assert(dl[i] == s[i]);
                assert(s[i].0.key() != s.last().0.key());
            }
        }
    }
}

/// Two sorted lists denoting the same mapping are the same list, key by key
/// and content by content.
pub proof fn lemma_sorted_entries_unique(s1: Seq<(Tag, BitBuffer)>, s2: Seq<(Tag, BitBuffer)>)
    requires
        entries_sorted(s1),
        entries_sorted(s2),
        map_of(s1) == map_of(s2),
    ensures
        s1.len() == s2.len(),
        forall|i: int|
            0 <= i < s1.len() ==> #[trigger] s1[i].0.key() == s2[i].0.key() && s1[i].1@ == s2[i].1@,
    decreases s1.len(),
{
    lemma_map_of_dom(s1);
    lemma_map_of_dom(s2);
    if s1.len() == 0 {
        if s2.len() > 0 {
            assert(map_of(s2).dom().contains(s2[s2.len() - 1].0.key()));
        }
    } else {
        assert(map_of(s1).dom().contains(s1[s1.len() - 1].0.key()));
        if s2.len() == 0 {
            assert(false);
        }
        let k1 = s1.last().0.key();
        let k2 = s2.last().0.key();
        assert(map_of(s2).dom().contains(k1));
        assert(map_of(s1).dom().contains(k2));
        let i1 = choose|i: int| 0 <= i < s2.len() && #[trigger] s2[i].0.key() == k1;
        let i2 = choose|i: int| 0 <= i < s1.len() && #[trigger] s1[i].0.key() == k2;
        assert(k1 <= s1.last().0.key());
        assert(s2[i1].0.key() <= k2);
        assert(s1[i2].0.key() <= k1);
        assert(k1 == k2);
        lemma_map_of_lookup(s1);
        lemma_map_of_lookup(s2);
        assert(s1.last().1@ == map_of(s1)[k1]);
        assert(s2.last().1@ == map_of(s2)[k1]);
        let d1 = s1.drop_last();
        let d2 = s2.drop_last();
        lemma_map_of_dom(d1);
        lemma_map_of_dom(d2);
        assert(!map_of(d1).dom().contains(k1));
        assert(!map_of(d2).dom().contains(k2));
        assert(map_of(d1) =~= map_of(s1).remove(k1));
        assert(map_of(d2) =~= map_of(s2).remove(k2));
        lemma_sorted_entries_unique(d1, d2);
        assert forall|i: int| 0 <= i < s1.len() implies #[trigger] s1[i].0.key() == s2[i].0.key()
            && s1[i].1@ == s2[i].1@ by {
            if i < s1.len() - 1 {
                assert(d1[i] == s1[i]);
                assert(d2[i] == s2[i]);
            }
        }
    }
}

/// Lists whose entries carry the same content in the same order concatenate
/// to the same bits.
pub proof fn lemma_concat_entries_eq(s1: Seq<(Tag, BitBuffer)>, s2: Seq<(Tag, BitBuffer)>)
    requires
        s1.len() == s2.len(),
        forall|i: int| 0 <= i < s1.len() ==> #[trigger] s1[i].1@ == s2[i].1@,
    ensures
        concat_entries(s1) == concat_entries(s2),
    decreases s1.len(),
{
    if s1.len() > 0 {
        let d1 = s1.drop_last();
        let d2 = s2.drop_last();
        assert forall|i: int| 0 <= i < d1.len() implies #[trigger] d1[i].1@ == d2[i].1@ by {
            assert(d1[i] == s1[i]);
            assert(d2[i] == s2[i]);
        }
        lemma_concat_entries_eq(d1, d2);
        assert(s1.last().1@ == s2.last().1@);
    }
}

proof fn lemma_map_of_insert(s: Seq<(Tag, BitBuffer)>, pos: int, e: (Tag, BitBuffer))
    requires
        0 <= pos <= s.len(),
        forall|j: int| pos <= j < s.len() ==> e.0.key() != #[trigger] s[j].0.key(),
    ensures
        map_of(s.insert(pos, e)) == map_of(s).insert(e.0.key(), e.1@),
    decreases s.len() - pos,
{
    let t = s.insert(pos, e);
    if pos == s.len() {
        assert(t.drop_last() =~= s);
        assert(t.last() == e);
    } else {
        assert(t.drop_last() =~= s.drop_last().insert(pos, e));
        assert(t.last() == s.last());
        lemma_map_of_insert(s.drop_last(), pos, e);
        assert(e.0.key() != s.last().0.key());
        assert(map_of(s.drop_last()).insert(e.0.key(), e.1@).insert(
            s.last().0.key(),
            s.last().1@,
        ) =~= map_of(s.drop_last()).insert(s.last().0.key(), s.last().1@).insert(
            e.0.key(),
            e.1@,
        ));
    }
}

proof fn lemma_map_of_update(s: Seq<(Tag, BitBuffer)>, idx: int, e: (Tag, BitBuffer))
    requires
        0 <= idx < s.len(),
        s[idx].0.key() == e.0.key(),
        forall|i: int, j: int|
            0 <= i < j < s.len() ==> #[trigger] s[i].0.key() != #[trigger] s[j].0.key(),
    ensures
        map_of(s.update(idx, e)) == map_of(s).insert(e.0.key(), e.1@),
    decreases s.len(),
{
    let t = s.update(idx, e);
    if idx == s.len() - 1 {
        assert(t.drop_last() =~= s.drop_last());
        assert(t.last() == e);
        assert(map_of(s.drop_last()).insert(s.last().0.key(), s.last().1@).insert(
            e.0.key(),
            e.1@,
        ) =~= map_of(s.drop_last()).insert(e.0.key(), e.1@));
    } else {
        assert(t.drop_last() =~= s.drop_last().update(idx, e));
        assert(t.last() == s.last());
        assert(s.drop_last()[idx] == s[idx]);
        lemma_map_of_update(s.drop_last(), idx, e);
        assert(e.0.key() != s.last().0.key());
        assert(map_of(s.drop_last()).insert(e.0.key(), e.1@).insert(
            s.last().0.key(),
            s.last().1@,
        ) =~= map_of(s.drop_last()).insert(s.last().0.key(), s.last().1@).insert(
            e.0.key(),
            e.1@,
        ));
    }
}

/// The ordered tag-to-content mapping of a SET scope.
pub struct TagMap {
    pub entries: Vec<(Tag, BitBuffer)>,
}

impl TagMap {
    /// Entries strictly sorted by tag.
    pub open spec fn wf(&self) -> bool {
        entries_sorted(self.entries@)
    }

    /// The mapping denoted.
    pub open spec fn view_map(&self) -> Map<int, Seq<bool>> {
        map_of(self.entries@)
    }

    pub fn new() -> (r: Self)
        ensures
            r.wf(),
            r.view_map() == Map::<int, Seq<bool>>::empty(),
            r.entries@.len() == 0,
    {
        TagMap { entries: Vec::new() }
    }

    /// Whether no field content has been recorded.
    pub fn is_empty(&self) -> (r: bool)
        ensures
            r == (self.entries@.len() == 0),
    {
        self.entries.len() == 0
    }

    /// Records `bits` as the content for `tag`, replacing any earlier content
    /// recorded under the same tag.
    pub fn insert(&mut self, tag: Tag, bits: BitBuffer)
        requires
            old(self).wf(),
        ensures
            final(self).wf(),
            final(self).view_map() == old(self).view_map().insert(tag.key(), bits@),
    {
        let n = self.entries.len();
        let i = self.find_pos(tag);
        if i < n && self.entries[i].0.eq_tag(&tag) {
            let ghost pre = self.entries@;
            self.entries.set(i, (tag, bits));
            proof {
                lemma_map_of_update(pre, i as int, (tag, bits));
                assert(entries_sorted(self.entries@)) by {
                    assert forall|a: int, b: int|
                        0 <= a < b < self.entries@.len() implies #[trigger] self.entries@[a].0.key()
                        < #[trigger] self.entries@[b].0.key() by {
                        if a != i && b != i {
                            assert(self.entries@[a] == pre[a]);
                            assert(self.entries@[b] == pre[b]);
                        } else if a == i {
                            assert(self.entries@[b] == pre[b]);
                            assert(pre[a].0.key() == tag.key());
                        } else {
                            assert(self.entries@[a] == pre[a]);
                            assert(pre[b].0.key() == tag.key());
                        }
                    }
                }
            }
            return ;
        }
        proof {
            assert forall|j: int| i <= j < self.entries@.len() implies tag.key()
                != #[trigger] self.entries@[j].0.key() by {
                if j == i {
                } else {
                    assert(self.entries@[i as int].0.key() < self.entries@[j].0.key());
                }
            }
        }
        let ghost pre = self.entries@;
        self.entries.insert(i, (tag, bits));
        proof {
            lemma_map_of_insert(pre, i as int, (tag, bits));
            assert(entries_sorted(self.entries@)) by {
                assert forall|a: int, b: int|
                    0 <= a < b < self.entries@.len() implies #[trigger] self.entries@[a].0.key()
                    < #[trigger] self.entries@[b].0.key() by {
                    let t = self.entries@;
                    if a < i {
                        assert(t[a] == pre[a]);
                    } else if a == i {
                    } else {
                        assert(t[a] == pre[a - 1]);
                    }
                    if b < i {
                        assert(t[b] == pre[b]);
                    } else if b == i {
                    } else {
                        assert(t[b] == pre[b - 1]);
                    }
                }
            }
        }
    }

    /// The first position whose tag key is at least `tag`'s.
    fn find_pos(&self, tag: Tag) -> (r: usize)
        requires
            self.wf(),
        ensures
            r <= self.entries@.len(),
            forall|j: int| 0 <= j < r ==> #[trigger] self.entries@[j].0.key() < tag.key(),
            r < self.entries@.len() ==> self.entries@[r as int].0.key() >= tag.key(),
    {
        let n = self.entries.len();
        let mut i: usize = 0;
        while i < n
            invariant
                n == self.entries@.len(),
                i <= n,
                forall|j: int| 0 <= j < i ==> #[trigger] self.entries@[j].0.key() < tag.key(),
            decreases n - i,
        {
            if !self.entries[i].0.const_less_than(tag) {
                return i;
            }
            i = i + 1;
        }
        n
    }

    /// The concatenation of every recorded content, in canonical tag order.
    pub fn concat_values(&self) -> (r: BitBuffer)
        ensures
            r@ == concat_entries(self.entries@),
    {
        let mut out = BitBuffer::new();
        let n = self.entries.len();
        let mut i: usize = 0;
        proof {
            assert(concat_entries(self.entries@.take(0)) =~= Seq::<bool>::empty());
        }
        while i < n
            invariant
                n == self.entries@.len(),
                i <= n,
                out@ == concat_entries(self.entries@.take(i as int)),
            decreases n - i,
        {
            out.append_bits(&self.entries[i].1);
            proof {
                let t = self.entries@.take(i as int + 1);
                assert(t.drop_last() =~= self.entries@.take(i as int));
                assert(t.last() == self.entries@[i as int]);
            }
            i = i + 1;
        }
        proof {
            assert(self.entries@.take(n as int) =~= self.entries@);
        }
        out
    }
}

/// Distinct tags throughout a presence list.
pub open spec fn presence_distinct(s: Seq<(Tag, bool)>) -> bool {
    forall|i: int, j: int|
        0 <= i < j < s.len() ==> #[trigger] s[i].0.key() != #[trigger] s[j].0.key()
}

/// Whether some entry carries the key.
pub open spec fn presence_has_key(s: Seq<(Tag, bool)>, k: int) -> bool {
    exists|i: int| 0 <= i < s.len() && #[trigger] s[i].0.key() == k
}

/// Strictly ascending tags throughout a presence list.
pub open spec fn presence_sorted(s: Seq<(Tag, bool)>) -> bool {
    forall|i: int, j: int|
        0 <= i < j < s.len() ==> #[trigger] s[i].0.key() < #[trigger] s[j].0.key()
}

/// The flag stored for a key: the first match wins.
pub open spec fn spec_presence_get(s: Seq<(Tag, bool)>, key: int) -> Option<bool>
    decreases s.len(),
{
    if s.len() == 0 {
        None
    } else if s[0].0.key() == key {
        Some(s[0].1)
    } else {
        spec_presence_get(s.drop_first(), key)
    }
}

/// The list with every entry for `tag` reflagged to `bit`.
pub open spec fn spec_set_bit(s: Seq<(Tag, bool)>, tag: Tag, bit: bool) -> Seq<(Tag, bool)> {
    Seq::new(
        s.len(),
        |i: int|
            if s[i].0.key() == tag.key() {
                (s[i].0, bit)
            } else {
                s[i]
            },
    )
}

/// The presence flags of a scope's OPTIONAL/DEFAULT fields, in the order the
/// flags are emitted.
pub struct PresenceList {
    pub entries: Vec<(Tag, bool)>,
}

impl PresenceList {
    /// Tags are distinct.
    pub open spec fn wf(&self) -> bool {
        presence_distinct(self.entries@)
    }

    /// The flag bits, in order.
    pub open spec fn spec_values(&self) -> Seq<bool> {
        Seq::new(self.entries@.len(), |i: int| self.entries@[i].1)
    }

    pub fn new() -> (r: Self)
        ensures
            r.wf(),
            r.entries@.len() == 0,
    {
        PresenceList { entries: Vec::new() }
    }

    pub fn len(&self) -> (r: usize)
        ensures
            r == self.entries@.len(),
    {
        self.entries.len()
    }

    pub fn is_empty(&self) -> (r: bool)
        ensures
            r == (self.entries@.len() == 0),
    {
        self.entries.len() == 0
    }

    /// Whether some entry carries the given tag.
    pub fn has_tag(&self, tag: Tag) -> (r: bool)
        ensures
            r == (exists|i: int|
                0 <= i < self.entries@.len() && #[trigger] self.entries@[i].0.key() == tag.key()),
    {
        let n = self.entries.len();
        let mut i: usize = 0;
        while i < n
            invariant
                n == self.entries@.len(),
                i <= n,
                forall|j: int| 0 <= j < i ==> #[trigger] self.entries@[j].0.key() != tag.key(),
            decreases n - i,
        {
            if self.entries[i].0.eq_tag(&tag) {
                return true;
            }
            i = i + 1;
        }
        false
    }

    /// Appends a field with the given flag; the tag must be new.
    pub fn push_flag(&mut self, tag: Tag, bit: bool)
        requires
            old(self).wf(),
            forall|i: int|
                0 <= i < old(self).entries@.len() ==> #[trigger] old(self).entries@[i].0.key()
                    != tag.key(),
        ensures
            final(self).wf(),
            final(self).entries@ == old(self).entries@.push((tag, bit)),
    {
        self.entries.push((tag, bit));
        proof {
            assert forall|i: int, j: int|
                0 <= i < j < self.entries@.len() implies #[trigger] self.entries@[i].0.key()
                != #[trigger] self.entries@[j].0.key() by {
                if j < self.entries@.len() - 1 {
                    assert(self.entries@[i] == old(self).entries@[i]);
                    assert(self.entries@[j] == old(self).entries@[j]);
                } else {
                    assert(self.entries@[i] == old(self).entries@[i]);
                }
            }
        }
    }

    /// Sets the flag of the field carrying `tag`, if one exists; does nothing
    /// otherwise.
    pub fn set_bit(&mut self, tag: Tag, bit: bool)
        requires
            old(self).wf(),
        ensures
            final(self).wf(),
            final(self).entries@ == spec_set_bit(old(self).entries@, tag, bit),
    {
        let n = self.entries.len();
        let mut i: usize = 0;
        while i < n
            invariant
                n == self.entries@.len(),
                i <= n,
                self.wf(),
                self.entries@.len() == old(self).entries@.len(),
                forall|j: int|
                    i <= j < n ==> #[trigger] self.entries@[j] == old(self).entries@[j],
                forall|j: int|
                    0 <= j < i ==> #[trigger] self.entries@[j] == (
                    if old(self).entries@[j].0.key() == tag.key() {
                        (old(self).entries@[j].0, bit)
                    } else {
                        old(self).entries@[j]
                    }),
            decreases n - i,
        {
            let et = self.entries[i].0;
            if et.eq_tag(&tag) {
                self.entries.set(i, (et, bit));
            }
            i = i + 1;
        }
        proof {
            assert(self.entries@ =~= spec_set_bit(old(self).entries@, tag, bit));
        }
    }

    /// The first position whose tag key is at least `tag`'s, in a sorted list.
    fn find_pos_sorted(&self, tag: Tag) -> (r: usize)
        requires
            presence_sorted(self.entries@),
        ensures
            r <= self.entries@.len(),
            forall|j: int| 0 <= j < r ==> #[trigger] self.entries@[j].0.key() < tag.key(),
            r < self.entries@.len() ==> self.entries@[r as int].0.key() >= tag.key(),
    {
        let n = self.entries.len();
        let mut i: usize = 0;
        while i < n
            invariant
                n == self.entries@.len(),
                i <= n,
                forall|j: int| 0 <= j < i ==> #[trigger] self.entries@[j].0.key() < tag.key(),
            decreases n - i,
        {
            if !self.entries[i].0.const_less_than(tag) {
                return i;
            }
            i = i + 1;
        }
        n
    }

    /// Inserts a cleared flag for `tag` in ascending key order, unless the
    /// tag is already present.
    pub fn insert_sorted_absent(&mut self, tag: Tag)
        requires
            presence_sorted(old(self).entries@),
            forall|i: int| 0 <= i < old(self).entries@.len() ==> !(#[trigger] old(self).entries@[i].1),
        ensures
            presence_sorted(final(self).entries@),
            forall|i: int|
                0 <= i < final(self).entries@.len() ==> !(#[trigger] final(self).entries@[i].1),
            forall|k: int|
                #[trigger] presence_has_key(final(self).entries@, k) <==> (presence_has_key(
                    old(self).entries@,
                    k,
                ) || k == tag.key()),
    {
        let n = self.entries.len();
        let pos = self.find_pos_sorted(tag);
        if pos < n && self.entries[pos].0.eq_tag(&tag) {
            return ;
        }
        proof {
            assert forall|j: int| pos <= j < self.entries@.len() implies tag.key()
                != #[trigger] self.entries@[j].0.key() by {
                if j > pos {
                    assert(self.entries@[pos as int].0.key() < self.entries@[j].0.key());
                }
            }
        }
        let ghost pre = self.entries@;
        self.entries.insert(pos, (tag, false));
        proof {
            let t = self.entries@;
            assert forall|a: int, b: int| 0 <= a < b < t.len() implies #[trigger] t[a].0.key()
                < #[trigger] t[b].0.key() by {
                if a < pos {
                    assert(t[a] == pre[a]);
                } else if a > pos {
                    assert(t[a] == pre[a - 1]);
                }
                if b < pos {
                    assert(t[b] == pre[b]);
                } else if b > pos {
                    assert(t[b] == pre[b - 1]);
                }
            }
            assert forall|k: int| #[trigger]
                presence_has_key(t, k) implies (presence_has_key(pre, k) || k == tag.key()) by {
                let i = choose|i: int| 0 <= i < t.len() && #[trigger] t[i].0.key() == k;
                if i < pos {
                    assert(pre[i].0.key() == k);
                } else if i > pos {
                    assert(pre[i - 1].0.key() == k);
                }
            }
            assert forall|k: int|
                (presence_has_key(pre, k) || k == tag.key()) implies #[trigger] presence_has_key(
                t,
                k,
            ) by {
                if presence_has_key(pre, k) {
                    let i = choose|i: int| 0 <= i < pre.len() && #[trigger] pre[i].0.key() == k;
                    if i < pos {
                        assert(t[i].0.key() == k);
                    } else {
                        assert(t[i + 1].0.key() == k);
                    }
                } else {
                    assert(t[pos as int].0.key() == k);
                }
            }
            assert forall|i: int| 0 <= i < t.len() implies !(#[trigger] t[i].1) by {
                if i < pos {
                    assert(t[i] == pre[i]);
                } else if i > pos {
                    assert(t[i] == pre[i - 1]);
                }
            }
        }
    }

    /// Whether any flag is set.
    pub fn any_set(&self) -> (r: bool)
        ensures
            r == (exists|i: int|
                0 <= i < self.entries@.len() && #[trigger] self.entries@[i].1 == true),
    {
        let n = self.entries.len();
        let mut i: usize = 0;
        while i < n
            invariant
                n == self.entries@.len(),
                i <= n,
                forall|j: int| 0 <= j < i ==> #[trigger] self.entries@[j].1 == false,
            decreases n - i,
        {
            if self.entries[i].1 {
                return true;
            }
            i = i + 1;
        }
        false
    }

    /// The flag of the field carrying `tag`, if one exists.
    pub fn get(&self, tag: Tag) -> (r: Option<bool>)
        ensures
            r == spec_presence_get(self.entries@, tag.key()),
    {
        let n = self.entries.len();
        let mut i: usize = 0;
        proof {
            assert(self.entries@.skip(0) =~= self.entries@);
        }
        while i < n
            invariant
                n == self.entries@.len(),
                i <= n,
                spec_presence_get(self.entries@, tag.key()) == spec_presence_get(
                    self.entries@.skip(i as int),
                    tag.key(),
                ),
            decreases n - i,
        {
            proof {
                assert(self.entries@.skip(i as int).drop_first() =~= self.entries@.skip(
                    i as int + 1,
                ));
            }
            if self.entries[i].0.eq_tag(&tag) {
                return Some(self.entries[i].1);
            }
            i = i + 1;
        }
        proof {
            assert(self.entries@.skip(n as int) =~= Seq::<(Tag, bool)>::empty());
        }
        None
    }

    /// Appends every flag bit to `buffer`, in field order.
    pub fn append_values(&self, buffer: &mut BitBuffer)
        ensures
            final(buffer)@ == old(buffer)@ + self.spec_values(),
    {
        let n = self.entries.len();
        let mut i: usize = 0;
        proof {
            assert(buffer@ =~= buffer@ + self.spec_values().take(0));
        }
        while i < n
            invariant
                n == self.entries@.len(),
                i <= n,
                buffer@ == old(buffer)@ + self.spec_values().take(i as int),
            decreases n - i,
        {
            buffer.push(self.entries[i].1);
            proof {
                assert(old(buffer)@ + self.spec_values().take(i as int + 1) =~= (old(buffer)@
                    + self.spec_values().take(i as int)).push(self.entries@[i as int].1));
            }
            i = i + 1;
        }
        proof {
            assert(self.spec_values().take(n as int) =~= self.spec_values());
        }
    }
}

} // verus!
