use vstd::prelude::*;
use crate::block_arrangement::{
    arr_bytes, encodes_at, extended_view, view_wf, BlockArrangement, ShapeView,
};
use crate::block_arrangement::block_variation::{candidate_set, VariationGenerator};
use crate::block_hash::{fingerprint_of, BlockHash};
use crate::orientation::Orientation;
use crate::point::{Finite3DDimension, PointView};


verus! {

/// The view of the one-block shape that every generation starts from.
pub open spec fn unit_view() -> ShapeView {
    ShapeView {
        cells: Set::<PointView>::empty().insert(PointView { x: 0, y: 0, z: 0 }),
        center: PointView { x: 0, y: 0, z: 0 },
        orientation: Orientation::identity(),
        dim: Finite3DDimension { x_pos: 0, x_neg: 0, y_pos: 0, y_neg: 0, z_pos: 0, z_neg: 0 },
    }
}

/// Whether the entry list holds the fingerprint as a key.
pub open spec fn has_key(s: Seq<(BlockHash, ShapeView)>, h: BlockHash) -> bool {
    exists|j: int| 0 <= j < s.len() && s[j].0 == h
}

/// How one level's deduplicated map relates to the next: every entry of the
/// next level is some one-block extension of a shape of this level, keyed by
/// its fingerprint; every extension's fingerprint appears as a key; and keys
/// never repeat.  Which extension represents a fingerprint is left open: the
/// first one seen keeps the spot.
pub open spec fn level_step(
    a: Seq<(BlockHash, ShapeView)>,
    b: Seq<(BlockHash, ShapeView)>,
) -> bool {
    &&& forall|j: int|
        0 <= j < b.len() ==> ((#[trigger] b[j]).0 == fingerprint_of(b[j].1) && exists|
            i: int,
            q: PointView,
        |
            0 <= i < a.len() && #[trigger] candidate_set(a[i].1).contains(q) && b[j].1
                == extended_view(a[i].1, q))
    &&& forall|i: int, q: PointView|
        0 <= i < a.len() && #[trigger] candidate_set(a[i].1).contains(q) ==> has_key(
            b,
            fingerprint_of(extended_view(a[i].1, q)),
        )
    &&& forall|j1: int, j2: int| 0 <= j1 < j2 < b.len() ==> b[j1].0 != b[j2].0
}

/// The byte string of a run of shapes, in order.
pub open spec fn entries_bytes(s: Seq<ShapeView>) -> Seq<u8>
    decreases s.len(),
{
    if s.len() == 0 {
        Seq::empty()
    } else {
        arr_bytes(s[0]) + entries_bytes(s.skip(1))
    }
}

/// The byte record of a level map: the level, the number of shapes, and
/// then each shape's byte string.
pub open spec fn level_map_bytes(level: u8, views: Seq<ShapeView>) -> Seq<u8> {
    seq![level] + crate::codec::u32_bytes(views.len() as u32) + entries_bytes(views)
}

/// The bytes are exactly the record of a level map holding the run
/// `views` at `level`: a positive level, every shape valid for it, and
/// fingerprints pairwise distinct.
#[verifier::opaque]
pub open spec fn level_map_record(b: Seq<u8>, level: u8, views: Seq<ShapeView>) -> bool {
    &&& b == level_map_bytes(level, views)
    &&& 1 <= level
    &&& views.len() < 0x1_0000_0000
    &&& forall|k: int|
        0 <= k < views.len() ==> (view_wf(#[trigger] views[k]) && views[k].count() == level
            && views[k].dim.within(level - 1))
    &&& forall|k1: int, k2: int|
        0 <= k1 < k2 < views.len() ==> fingerprint_of(views[k1]) != fingerprint_of(views[k2])
}

/// Appending one shape extends the run's byte string by its encoding.
#[verifier::rlimit(100)]
#[verifier::spinoff_prover]
proof fn lemma_entries_bytes_snoc(s: Seq<ShapeView>, i: int)
    requires
        0 <= i < s.len(),
    ensures
        entries_bytes(s.take(i + 1)) == entries_bytes(s.take(i)) + arr_bytes(s[i]),
    decreases i,
{
    if i == 0 {
        assert(s.take(1).skip(1) =~= Seq::<ShapeView>::empty());
        assert(s.take(0) =~= Seq::<ShapeView>::empty());
        assert(entries_bytes(s.take(1)) =~= entries_bytes(s.take(0)) + arr_bytes(s[0]));
    } else {
        lemma_entries_bytes_snoc(s.skip(1), i - 1);
        assert(s.take(i + 1).skip(1) =~= s.skip(1).take(i));
        assert(s.take(i).skip(1) =~= s.skip(1).take(i - 1));
        assert(s.take(i + 1)[0] == s[0] && s.take(i)[0] == s[0]);
        assert(s.skip(1)[i - 1] == s[i]);
        assert(entries_bytes(s.take(i + 1)) =~= entries_bytes(s.take(i)) + arr_bytes(s[i]));
    }
}

/// The run's byte string splits around any one shape.
#[verifier::rlimit(100)]
#[verifier::spinoff_prover]
proof fn lemma_entries_bytes_split(s: Seq<ShapeView>, i: int)
    requires
        0 <= i < s.len(),
    ensures
        entries_bytes(s) == entries_bytes(s.take(i)) + arr_bytes(s[i]) + entries_bytes(
            s.skip(i + 1),
        ),
    decreases i,
{
    if i == 0 {
        assert(s.take(0) =~= Seq::<ShapeView>::empty());
        assert(entries_bytes(s) =~= entries_bytes(s.take(0)) + arr_bytes(s[0]) + entries_bytes(
            s.skip(1),
        ));
    } else {
        lemma_entries_bytes_split(s.skip(1), i - 1);
        assert(s.skip(1).take(i - 1) =~= s.take(i).skip(1));
        assert(s.skip(1).skip(i) =~= s.skip(i + 1));
        assert(s.skip(1)[i - 1] == s[i]);
        assert(s.take(i)[0] == s[0]);
        assert(entries_bytes(s) =~= entries_bytes(s.take(i)) + arr_bytes(s[i]) + entries_bytes(
            s.skip(i + 1),
        ));
    }
}

/// In a level record, shape `i` of the run stands encoded at its offset.
#[verifier::rlimit(100)]
#[verifier::spinoff_prover]
proof fn lemma_record_entry(b: Seq<u8>, level: u8, views: Seq<ShapeView>, i: int)
    requires
        level_map_record(b, level, views),
        0 <= i < views.len(),
    ensures
        encodes_at(b, 5 + entries_bytes(views.take(i)).len() as int, views[i]),
{
    reveal(level_map_record);
    reveal(crate::block_arrangement::encodes_at);
    lemma_entries_bytes_split(views, i);
    let off = 5 + entries_bytes(views.take(i)).len() as int;
    let l = arr_bytes(views[i]).len() as int;
    assert forall|t: int| 0 <= t < l implies b[off + t] == #[trigger] arr_bytes(views[i])[t] by {
        let u = entries_bytes(views.take(i)).len() + t;
        assert(b[5 + u] == entries_bytes(views)[u]);
        assert(entries_bytes(views)[u] == arr_bytes(views[i])[t]);
    }
    assert(b.subrange(off, off + l) =~= arr_bytes(views[i]));
}

/// The keys of the first-seen fold are exactly the fingerprints of the
/// shapes.
proof fn lemma_folded_keys(s: Seq<ShapeView>)
    ensures
        forall|h: BlockHash|
            has_key(folded_entries(s), h) <==> exists|k: int|
                0 <= k < s.len() && fingerprint_of(#[trigger] s[k]) == h,
    decreases s.len(),
{
    if s.len() > 0 {
        lemma_folded_keys(s.drop_last());
        let prev = folded_entries(s.drop_last());
        let hl = fingerprint_of(s.last());
        assert forall|h: BlockHash| has_key(folded_entries(s), h) implies exists|k: int|
            0 <= k < s.len() && fingerprint_of(#[trigger] s[k]) == h by {
            if has_key(prev, h) {
                let k = choose|k: int|
                    0 <= k < s.drop_last().len() && fingerprint_of(#[trigger] s.drop_last()[k])
                        == h;
                assert(fingerprint_of(s[k]) == h);
            } else {
                let j = choose|j: int|
                    0 <= j < folded_entries(s).len() && folded_entries(s)[j].0 == h;
                assert(h == hl);
                assert(fingerprint_of(s[s.len() - 1]) == h);
            }
        }
        assert forall|h: BlockHash|
            (exists|k: int| 0 <= k < s.len() && fingerprint_of(#[trigger] s[k]) == h) implies
            has_key(folded_entries(s), h) by {
            let k = choose|k: int| 0 <= k < s.len() && fingerprint_of(#[trigger] s[k]) == h;
            if k < s.len() - 1 {
                assert(fingerprint_of(s.drop_last()[k]) == h);
                assert(has_key(prev, h));
                let j = choose|j: int| 0 <= j < prev.len() && prev[j].0 == h;
                assert(folded_entries(s)[j].0 == h);
            } else {
                if has_key(prev, hl) {
                    let j = choose|j: int| 0 <= j < prev.len() && prev[j].0 == hl;
                    assert(folded_entries(s)[j].0 == h);
                } else {
                    assert(folded_entries(s)[folded_entries(s).len() - 1].0 == h);
                }
            }
        }
    }
}

/// With pairwise distinct fingerprints the fold keeps every shape, in
/// order.
proof fn lemma_folded_distinct(s: Seq<ShapeView>)
    requires
        forall|k1: int, k2: int|
            0 <= k1 < k2 < s.len() ==> fingerprint_of(s[k1]) != fingerprint_of(s[k2]),
    ensures
        folded_entries(s) == s.map_values(|v: ShapeView| (fingerprint_of(v), v)),
    decreases s.len(),
{
    if s.len() == 0 {
        assert(folded_entries(s) =~= s.map_values(|v: ShapeView| (fingerprint_of(v), v)));
    } else {
        assert(forall|k1: int, k2: int|
            0 <= k1 < k2 < s.drop_last().len() ==> fingerprint_of(s.drop_last()[k1])
                != fingerprint_of(s.drop_last()[k2]));
        lemma_folded_distinct(s.drop_last());
        lemma_folded_keys(s.drop_last());
        let hl = fingerprint_of(s.last());
        assert(!has_key(folded_entries(s.drop_last()), hl)) by {
            if has_key(folded_entries(s.drop_last()), hl) {
                let k = choose|k: int|
                    0 <= k < s.drop_last().len() && fingerprint_of(#[trigger] s.drop_last()[k])
                        == hl;
                assert(fingerprint_of(s[k]) == fingerprint_of(s[s.len() - 1]));
            }
        }
        assert(folded_entries(s) =~= s.map_values(|v: ShapeView| (fingerprint_of(v), v)));
    }
}

/// The first-seen fold of a run of shapes into fingerprint-keyed entries:
/// each shape is keyed by its fingerprint, and a shape whose fingerprint is
/// already present is dropped.
pub open spec fn folded_entries(s: Seq<ShapeView>) -> Seq<(BlockHash, ShapeView)>
    decreases s.len(),
{
    if s.len() == 0 {
        Seq::empty()
    } else {
        let prev = folded_entries(s.drop_last());
        let h = fingerprint_of(s.last());
        if has_key(prev, h) {
            prev
        } else {
            prev.push((h, s.last()))
        }
    }
}

/// The fingerprint-keyed map of the distinct shapes found at one block
/// count: one representative arrangement per fingerprint, the first seen.
pub struct LevelMap {
    level: u8,
    entries: Vec<(BlockHash, BlockArrangement)>,
}

impl View for LevelMap {
    type V = Seq<(BlockHash, ShapeView)>;

    closed spec fn view(&self) -> Seq<(BlockHash, ShapeView)> {
        self.entries@.map_values(|e: (BlockHash, BlockArrangement)| (e.0, e.1@))
    }
}

impl LevelMap {
    /// The block count this level holds shapes of.
    pub closed spec fn spec_level(self) -> int {
        self.level as int
    }

    #[verifier::type_invariant]
    closed spec fn wf_map(self) -> bool {
        &&& 1 <= self.level
        &&& forall|i: int|
            0 <= i < self.entries@.len() ==> {
                &&& (#[trigger] self.entries@[i]).0 == fingerprint_of(self.entries@[i].1@)
                &&& view_wf(self.entries@[i].1@)
                &&& self.entries@[i].1@.count() == self.level as nat
                &&& self.entries@[i].1@.dim.within(self.level - 1)
            }
        &&& forall|i: int, j: int|
            0 <= i < j < self.entries@.len() ==> self.entries@[i].0 != self.entries@[j].0
    }

    /// The trivial first level: the single one-block shape, keyed by its
    /// fingerprint.
    pub fn unit() -> (r: LevelMap)
        ensures
            r.spec_level() == 1,
            r@.len() == 1,
            r@[0].1 == unit_view(),
            r@[0].0 == fingerprint_of(unit_view()),
    {
        let ba = BlockArrangement::new();
        let h = BlockHash::from(&ba);
        let entries: Vec<(BlockHash, BlockArrangement)> = vec![(h, ba)];
        proof {
            assert(entries@.map_values(|e: (BlockHash, BlockArrangement)| (e.0, e.1@))[0].1
                == unit_view());
        }
        LevelMap { level: 1, entries }
    }

    /// How many distinct fingerprints this level holds.
    pub fn len(&self) -> (r: usize)
        ensures
            r == self@.len(),
    {
        self.entries.len()
    }

    /// Rebuilds a level map from stored shapes.  It succeeds exactly when
    /// the level is at least one and every shape has `level` blocks and
    /// fits the level's box bound; the result is the first-seen fold of the
    /// shapes: each keyed by its fingerprint, repeated fingerprints
    /// dropped.
    pub fn from_arrangements(level: u8, items: &Vec<BlockArrangement>) -> (r: Option<LevelMap>)
        ensures
            r is Some <==> (1 <= level && forall|k: int|
                0 <= k < items@.len() ==> ((#[trigger] items@[k])@.count() == level && items@[k]@.dim.within(level - 1))),
            r is Some ==> r->Some_0.spec_level() == level && r->Some_0@ == folded_entries(
                items@.map_values(|b: BlockArrangement| b@),
            ),
    {
        let ghost iv = items@.map_values(|b: BlockArrangement| b@);
        if level == 0 {
            return None;
        }
        let mut entries: Vec<(BlockHash, BlockArrangement)> = Vec::new();
        let mut i: usize = 0;
        while i < items.len()
            invariant
                0 <= i <= items@.len(),
                1 <= level,
                iv == items@.map_values(|b: BlockArrangement| b@),
                iv.len() == items@.len(),
                entries@.map_values(|e: (BlockHash, BlockArrangement)| (e.0, e.1@))
                    == folded_entries(iv.take(i as int)),
                forall|k: int|
                    0 <= k < i ==> ((#[trigger] items@[k])@.count() == level && items@[k]@.dim.within(level - 1)),
                forall|j: int|
                    0 <= j < entries@.len() ==> {
                        &&& (#[trigger] entries@[j]).0 == fingerprint_of(entries@[j].1@)
                        &&& view_wf(entries@[j].1@)
                        &&& entries@[j].1@.count() == level as nat
                        &&& entries@[j].1@.dim.within(level - 1)
                    },
                forall|j1: int, j2: int|
                    0 <= j1 < j2 < entries@.len() ==> entries@[j1].0 != entries@[j2].0,
            decreases items@.len() - i,
        {
            let ba = &items[i];
            if ba.num_blocks() != level {
                proof {
                    assert(items@[i as int]@.count() != level);
                }
                return None;
            }
            let d = ba.dimension();
            let bound: u32 = (level - 1) as u32;
            if d.x_pos > bound || d.x_neg > bound || d.y_pos > bound || d.y_neg > bound || d.z_pos
                > bound || d.z_neg > bound {
                proof {
                    assert(!items@[i as int]@.dim.within(level - 1));
                }
                return None;
            }
            let h = BlockHash::from(ba);
            let dup = contains_key(&entries, &h);
            let ghost entries0 = entries@;
            let ghost prev = entries0.map_values(|e: (BlockHash, BlockArrangement)| (e.0, e.1@));
            proof {
                assert(iv.take(i as int + 1).drop_last() =~= iv.take(i as int));
                assert(iv.take(i as int + 1).last() == iv[i as int]);
                assert(h == fingerprint_of(iv[i as int]));
            }
            if !dup {
                entries.push((h, ba.clone()));
                proof {
                    assert(entries@ == entries0.push((h, *ba)) || entries@.len() == entries0.len()
                        + 1);
                    assert(entries@.map_values(|e: (BlockHash, BlockArrangement)| (e.0, e.1@))
                        =~= prev.push((h, iv[i as int])));
                    assert forall|j1: int, j2: int|
                        0 <= j1 < j2 < entries@.len() implies entries@[j1].0 != entries@[j2].0 by {
                        if j2 == entries@.len() - 1 {
                            assert(!has_key(prev, h));
                            if entries0[j1].0 == h {
                                assert(prev[j1].0 == h);
                            }
                        }
                    }
                }
            } else {
                proof {
                    assert(has_key(prev, h));
                    assert(folded_entries(iv.take(i as int + 1)) == prev);
                }
            }
            i = i + 1;
        }
        proof {
            assert(iv.take(items@.len() as int) =~= iv);
        }
        Some(LevelMap { level, entries })
    }

    /// Serializes this level map into its byte record: the level, the
    /// number of shapes, and then each shape's byte string.  `decode`
    /// reads the record back.
    pub fn encode(&self) -> (r: Vec<u8>)
        requires
            self@.len() < 0x1_0000_0000,
        ensures
            r@ == level_map_bytes(
                self.spec_level() as u8,
                self@.map_values(|e: (BlockHash, ShapeView)| e.1),
            ),
            level_map_record(
                r@,
                self.spec_level() as u8,
                self@.map_values(|e: (BlockHash, ShapeView)| e.1),
            ),
    {
        proof {
            use_type_invariant(self);
        }
        let ghost vs = self@.map_values(|e: (BlockHash, ShapeView)| e.1);
        let mut out: Vec<u8> = Vec::new();
        out.push(self.level);
        crate::codec::push_u32(&mut out, self.entries.len() as u32);
        proof {
            assert(vs.len() == self.entries@.len());
            assert(out@ =~= seq![self.level] + crate::codec::u32_bytes(vs.len() as u32));
            assert(vs.take(0) =~= Seq::<ShapeView>::empty());
        }
        let ghost header = out@;
        let mut i: usize = 0;
        while i < self.entries.len()
            invariant
                0 <= i <= self.entries@.len(),
                vs == self@.map_values(|e: (BlockHash, ShapeView)| e.1),
                self@.len() == self.entries@.len(),
                vs.len() == self.entries@.len(),
                header == seq![self.level] + crate::codec::u32_bytes(vs.len() as u32),
                out@ == header + entries_bytes(vs.take(i as int)),
            decreases self.entries@.len() - i,
        {
            let ghost pre = out@;
            self.entries[i].1.encode(&mut out);
            proof {
                assert(vs[i as int] == self@[i as int].1);
                assert(self@[i as int].1 == self.entries@[i as int].1@);
                assert(out@ == pre + arr_bytes(vs[i as int]));
                lemma_entries_bytes_snoc(vs, i as int);
                assert(out@ =~= header + entries_bytes(vs.take(i as int + 1)));
            }
            i = i + 1;
        }
        proof {
            use_type_invariant(self);
            assert(vs.take(vs.len() as int) =~= vs);
            assert(out@ =~= level_map_bytes(self.level, vs));
            reveal(level_map_record);
            assert forall|k: int| 0 <= k < vs.len() implies (view_wf(#[trigger] vs[k])
                && vs[k].count() == self.level && vs[k].dim.within(self.level - 1)) by {
                assert(vs[k] == self.entries@[k].1@);
            }
            assert forall|k1: int, k2: int|
                0 <= k1 < k2 < vs.len() implies fingerprint_of(vs[k1]) != fingerprint_of(
                vs[k2],
            ) by {
                assert(self.entries@[k1].0 == fingerprint_of(vs[k1]));
                assert(self.entries@[k2].0 == fingerprint_of(vs[k2]));
            }
        }
        out
    }

    /// Restores a level map from its byte record, validating as it reads:
    /// the round trip of `encode`.  Wherever the bytes are the record of
    /// some valid run of shapes, exactly the map holding that run comes
    /// back.
    pub fn decode(b: &Vec<u8>) -> (r: Option<LevelMap>)
        ensures
            r is Some ==> 1 <= r->Some_0.spec_level(),
            forall|level: u8, views: Seq<ShapeView>|
                #[trigger] level_map_record(b@, level, views) ==> (r is Some
                    && r->Some_0.spec_level() == level && r->Some_0@ == views.map_values(
                    |v: ShapeView| (fingerprint_of(v), v),
                )),
    {
        if b.len() < 5 {
            proof {
                assert forall|level: u8, views: Seq<ShapeView>|
                    #[trigger] level_map_record(b@, level, views) implies false by {
                    reveal(level_map_record);
                    assert(b@.len() >= 5);
                }
            }
            return None;
        }
        let level = b[0];
        let (count32, _p0) = crate::codec::read_u32(b, 1).unwrap();
        proof {
            assert forall|level2: u8, views: Seq<ShapeView>|
                #[trigger] level_map_record(b@, level2, views) implies (level2 == level
                && views.len() == count32) by {
                reveal(level_map_record);
                assert(b@[0] == level2);
                assert(crate::codec::u32_bytes(views.len() as u32) =~= b@.subrange(1, 5));
                crate::codec::lemma_u32_bytes_injective(count32, views.len() as u32);
            }
        }
        let mut items: Vec<BlockArrangement> = Vec::new();
        let mut pos: usize = 5;
        let mut i: u32 = 0;
        while i < count32
            invariant
                0 <= i <= count32,
                5 <= pos <= b@.len(),
                items@.len() == i,
                b@.len() >= 5,
                forall|level2: u8, views: Seq<ShapeView>|
                    #[trigger] level_map_record(b@, level2, views) ==> (views.len() == count32
                        && pos == 5 + entries_bytes(views.take(i as int)).len() && (forall|k: int|
                        0 <= k < i ==> (#[trigger] items@[k])@ == views[k])),
            decreases count32 - i,
        {
            let ghost pos0 = pos as int;
            let ghost items0 = items@;
            let d = BlockArrangement::decode(b, pos);
            match d {
                None => {
                    proof {
                        assert forall|level2: u8, views: Seq<ShapeView>|
                            #[trigger] level_map_record(b@, level2, views) implies false by {
                            lemma_record_entry(b@, level2, views, i as int);
                        }
                    }
                    return None;
                },
                Some((ba, p2)) => {
                    items.push(ba);
                    pos = p2;
                    proof {
                        assert forall|level2: u8, views: Seq<ShapeView>|
                            #[trigger] level_map_record(b@, level2, views) implies (pos == 5
                            + entries_bytes(views.take(i as int + 1)).len() && (forall|k: int|
                            0 <= k < i + 1 ==> (#[trigger] items@[k])@ == views[k])) by {
                            lemma_record_entry(b@, level2, views, i as int);
                            lemma_entries_bytes_snoc(views, i as int);
                            assert(items@[i as int]@ == views[i as int]);
                            assert forall|k: int| 0 <= k < i + 1 implies (#[trigger] items@[k])@
                                == views[k] by {
                                if k < i {
                                    assert(items0[k]@ == views[k]);
                                }
                            }
                        }
                    }
                },
            }
            i = i + 1;
        }
        if pos != b.len() {
            proof {
                assert forall|level2: u8, views: Seq<ShapeView>|
                    #[trigger] level_map_record(b@, level2, views) implies false by {
                    reveal(level_map_record);
                    assert(views.take(views.len() as int) =~= views);
                }
            }
            return None;
        }
        let r = Self::from_arrangements(level, &items);
        proof {
            assert forall|level2: u8, views: Seq<ShapeView>|
                #[trigger] level_map_record(b@, level2, views) implies (r is Some
                && r->Some_0.spec_level() == level2 && r->Some_0@ == views.map_values(
                |v: ShapeView| (fingerprint_of(v), v),
            )) by {
                reveal(level_map_record);
                let iv = items@.map_values(|b2: BlockArrangement| b2@);
                assert(iv =~= views);
                assert forall|k: int| 0 <= k < items@.len() implies ((#[trigger] items@[k])@.count()
                    == level && items@[k]@.dim.within(level - 1)) by {
                    assert(items@[k]@ == views[k]);
                }
                assert(r is Some);
                lemma_folded_distinct(views);
                assert(r->Some_0@ == folded_entries(views));
            }
        }
        r
    }

    /// The representative shape of every fingerprint at this level.
    pub fn representatives(&self) -> (r: Vec<BlockArrangement>)
        ensures
            r@.len() == self@.len(),
            forall|k: int| 0 <= k < r@.len() ==> (#[trigger] r@[k])@ == self@[k].1,
    {
        let mut out: Vec<BlockArrangement> = Vec::new();
        let mut i: usize = 0;
        while i < self.entries.len()
            invariant
                0 <= i <= self.entries@.len(),
                self@.len() == self.entries@.len(),
                out@.len() == i,
                forall|k: int| 0 <= k < i ==> (#[trigger] out@[k])@ == self@[k].1,
            decreases self.entries@.len() - i,
        {
            out.push(self.entries[i].1.clone());
            i = i + 1;
        }
        out
    }

    /// The block count this level holds shapes of.
    pub fn level(&self) -> (r: u8)
        ensures
            r == self.spec_level(),
    {
        self.level
    }

}

/// Whether `entries` already holds the key `h`.
fn contains_key(entries: &Vec<(BlockHash, BlockArrangement)>, h: &BlockHash) -> (r: bool)
    ensures
        r == has_key(
            entries@.map_values(|e: (BlockHash, BlockArrangement)| (e.0, e.1@)),
            *h,
        ),
{
    let ghost view = entries@.map_values(|e: (BlockHash, BlockArrangement)| (e.0, e.1@));
    let mut j: usize = 0;
    while j < entries.len()
        invariant
            0 <= j <= entries@.len(),
            view == entries@.map_values(|e: (BlockHash, BlockArrangement)| (e.0, e.1@)),
            forall|j2: int| 0 <= j2 < j ==> view[j2].0 != *h,
        decreases entries@.len() - j,
    {
        let k = &entries[j].0;
        if k.num_blocks == h.num_blocks && k.density == h.density && k.align_low == h.align_low
            && k.align_mid == h.align_mid && k.align_high == h.align_high {
            proof {
                assert(view[j as int].0 == *h);
            }
            return true;
        }
        j = j + 1;
    }
    false
}

/// Folds every one-block extension of every shape at one level into the
/// deduplicated map of the next level: each extension is fingerprinted, and
/// the first shape seen for a fingerprint keeps the spot.
pub fn generate_increased_variations_from_cache(cache: &LevelMap) -> (r: LevelMap)
    requires
        cache.spec_level() <= 254,
    ensures
        r.spec_level() == cache.spec_level() + 1,
        level_step(cache@, r@),
{
    proof {
        use_type_invariant(cache);
    }
    let ghost av = cache@;
    let mut out: Vec<(BlockHash, BlockArrangement)> = Vec::new();
    let mut i: usize = 0;
    let level: u8 = cache.level;
    while i < cache.entries.len()
        invariant
            0 <= i <= cache.entries@.len(),
            av == cache@,
            av.len() == cache.entries@.len(),
            cache.wf_map(),
            cache.spec_level() <= 254,
            level == cache.spec_level(),
            forall|j: int|
                0 <= j < out@.len() ==> {
                    &&& (#[trigger] out@[j]).0 == fingerprint_of(out@[j].1@)
                    &&& view_wf(out@[j].1@)
                    &&& out@[j].1@.count() == level + 1
                    &&& out@[j].1@.dim.within(level as int)
                    &&& exists|i2: int, q: PointView|
                        0 <= i2 < av.len() && #[trigger] candidate_set(av[i2].1).contains(q)
                            && out@[j].1@ == extended_view(av[i2].1, q)
                },
            forall|j1: int, j2: int| 0 <= j1 < j2 < out@.len() ==> out@[j1].0 != out@[j2].0,
            forall|i2: int, q: PointView|
                0 <= i2 < i && #[trigger] candidate_set(av[i2].1).contains(q) ==> has_key(
                    out@.map_values(|e: (BlockHash, BlockArrangement)| (e.0, e.1@)),
                    fingerprint_of(extended_view(av[i2].1, q)),
                ),
        decreases cache.entries@.len() - i,
    {
        let ghost v = av[i as int].1;
        let mut gen = VariationGenerator::new(&cache.entries[i].1);
        let ghost cands = gen.remaining();
        let mut done = false;
        while !done
            invariant
                0 <= i < cache.entries@.len(),
                av == cache@,
                av.len() == cache.entries@.len(),
                cache.wf_map(),
                level == cache.spec_level(),
                cache.spec_level() <= 254,
                v == av[i as int].1,
                gen.orig_view() == v,
                cands.no_duplicates(),
                forall|k: int|
                    0 <= k < cands.len() ==> candidate_set(v).contains(#[trigger] cands[k]),
                forall|q: PointView|
                    #[trigger] candidate_set(v).contains(q) ==> exists|k: int|
                        0 <= k < cands.len() && cands[k] == q,
                gen.remaining() == cands.skip(cands.len() - gen.remaining().len()),
                gen.remaining().len() <= cands.len(),
                done ==> gen.remaining().len() == 0,
                forall|j: int|
                    0 <= j < out@.len() ==> {
                        &&& (#[trigger] out@[j]).0 == fingerprint_of(out@[j].1@)
                        &&& view_wf(out@[j].1@)
                        &&& out@[j].1@.count() == level + 1
                        &&& out@[j].1@.dim.within(level as int)
                        &&& exists|i2: int, q: PointView|
                            0 <= i2 < av.len() && #[trigger] candidate_set(av[i2].1).contains(q)
                                && out@[j].1@ == extended_view(av[i2].1, q)
                    },
                forall|j1: int, j2: int| 0 <= j1 < j2 < out@.len() ==> out@[j1].0 != out@[j2].0,
                forall|i2: int, q: PointView|
                    0 <= i2 < i && #[trigger] candidate_set(av[i2].1).contains(q) ==> has_key(
                        out@.map_values(|e: (BlockHash, BlockArrangement)| (e.0, e.1@)),
                        fingerprint_of(extended_view(av[i2].1, q)),
                    ),
                forall|k: int|
                    0 <= k < cands.len() - gen.remaining().len() ==> has_key(
                        out@.map_values(|e: (BlockHash, BlockArrangement)| (e.0, e.1@)),
                        fingerprint_of(extended_view(v, #[trigger] cands[k])),
                    ),
            decreases gen.remaining().len() + 1 + (if done { 0int } else { 1int }),
        {
            let ghost rem0 = gen.remaining();
            let nxt = gen.next();
            match nxt {
                None => {
                    done = true;
                },
                Some(b) => {
                    let h = BlockHash::from(&b);
                    let ghost out0 = out@;
                    let dup = contains_key(&out, &h);
                    if !dup {
                        out.push((h, b));
                    }
                    proof {
                        let consumed = cands.len() - rem0.len();
                        assert(rem0[0] == cands[consumed]);
                        assert(b@ == extended_view(v, cands[consumed]));
                        assert(candidate_set(v).contains(cands[consumed]));
                        assert(forall|j: int|
                            0 <= j < out0.len() ==> out@[j] == out0[j]);
                        let newview = out@.map_values(
                            |e: (BlockHash, BlockArrangement)| (e.0, e.1@),
                        );
                        let oldview = out0.map_values(
                            |e: (BlockHash, BlockArrangement)| (e.0, e.1@),
                        );
                        assert(forall|j: int| 0 <= j < oldview.len() ==> newview[j] == oldview[j]);
                        assert(has_key(newview, h)) by {
                            if !dup {
                                assert(newview[newview.len() - 1].0 == h);
                            } else {
                                let j = choose|j: int|
                                    0 <= j < oldview.len() && oldview[j].0 == h;
                                assert(newview[j].0 == h);
                            }
                        }
                        assert forall|j1: int, j2: int|
                            0 <= j1 < j2 < out@.len() implies out@[j1].0 != out@[j2].0 by {
                            if j2 < out0.len() {
                                assert(out@[j1].0 == out0[j1].0 && out@[j2].0 == out0[j2].0);
                            } else {
                                assert(!dup);
                                assert(!has_key(oldview, h));
                                assert(out@[j1].0 == out0[j1].0);
                                assert(oldview[j1].0 == out0[j1].0);
                                assert(out@[j2].0 == h);
                                if oldview[j1].0 == h {
                                    assert(has_key(oldview, h));
                                }
                            }
                        }
                        assert forall|k: int|
                            0 <= k < cands.len() - gen.remaining().len() implies has_key(
                            newview,
                            fingerprint_of(extended_view(v, #[trigger] cands[k])),
                        ) by {
                            if k < consumed {
                                let j = choose|j: int|
                                    0 <= j < oldview.len() && oldview[j].0 == fingerprint_of(
                                        extended_view(v, cands[k]),
                                    );
                                assert(newview[j].0 == fingerprint_of(
                                    extended_view(v, cands[k]),
                                ));
                            } else {
                                assert(k == consumed);
                                assert(fingerprint_of(extended_view(v, cands[k])) == h);
                            }
                        }
                        assert forall|i2: int, q: PointView|
                            0 <= i2 < i && #[trigger] candidate_set(av[i2].1).contains(
                                q,
                            ) implies has_key(
                            newview,
                            fingerprint_of(extended_view(av[i2].1, q)),
                        ) by {
                            let j = choose|j: int|
                                0 <= j < oldview.len() && oldview[j].0 == fingerprint_of(
                                    extended_view(av[i2].1, q),
                                );
                            assert(newview[j].0 == fingerprint_of(extended_view(av[i2].1, q)));
                        }
                    }
                },
            }
        }
        proof {
            // every candidate of this shape is now covered
            assert forall|q: PointView| #[trigger]
                candidate_set(av[i as int].1).contains(q) implies has_key(
                out@.map_values(|e: (BlockHash, BlockArrangement)| (e.0, e.1@)),
                fingerprint_of(extended_view(av[i as int].1, q)),
            ) by {
                let k = choose|k: int| 0 <= k < cands.len() && cands[k] == q;
            }
        }
        i = i + 1;
    }
    let r = LevelMap { level: level + 1, entries: out };
    proof {
        assert forall|j: int| 0 <= j < r@.len() implies ((#[trigger] r@[j]).0 == fingerprint_of(
            r@[j].1,
        ) && exists|i2: int, q: PointView|
            0 <= i2 < av.len() && #[trigger] candidate_set(av[i2].1).contains(q) && r@[j].1
                == extended_view(av[i2].1, q)) by {}
    }
    r
}

/// A run of level maps: it starts from the single one-block shape, each
/// level follows from the one before it by `level_step`, and the count is
/// the size of the last level.
pub open spec fn is_level_chain(chain: Seq<Seq<(BlockHash, ShapeView)>>, n: int, r: int) -> bool {
    &&& chain.len() == n
    &&& chain[0].len() == 1
    &&& chain[0][0].1 == unit_view()
    &&& chain[0][0].0 == fingerprint_of(unit_view())
    &&& forall|k: int| 0 <= k < chain.len() - 1 ==> level_step(#[trigger] chain[k], chain[k + 1])
    &&& r == chain[chain.len() - 1].len()
}

/// Counts the distinct shapes of `num_blocks` face-joined cubes: level by
/// level, every shape of the previous level is extended by one block in
/// every possible position, and the extensions are deduplicated through
/// their fingerprints, keeping the first shape seen per fingerprint.
pub fn calc_num_of_unique_arrangements(num_blocks: u8) -> (r: usize)
    requires
        1 <= num_blocks,
    ensures
        exists|chain: Seq<Seq<(BlockHash, ShapeView)>>|
            #[trigger] is_level_chain(chain, num_blocks as int, r as int),
{
    let mut map = LevelMap::unit();
    let ghost mut chain: Seq<Seq<(BlockHash, ShapeView)>> = seq![map@];
    let mut k: u8 = 1;
    while k < num_blocks
        invariant
            1 <= k <= num_blocks,
            map.spec_level() == k as int,
            chain.len() == k as int,
            chain[0].len() == 1,
            chain[0][0].1 == unit_view(),
            chain[0][0].0 == fingerprint_of(unit_view()),
            forall|k2: int| 0 <= k2 < chain.len() - 1 ==> level_step(#[trigger] chain[k2], chain[k2 + 1]),
            chain[chain.len() - 1] == map@,
        decreases num_blocks - k,
    {
        map = generate_increased_variations_from_cache(&map);
        proof {
            chain = chain.push(map@);
        }
        k = k + 1;
    }
    let r = map.len();
    proof {
        assert(is_level_chain(chain, num_blocks as int, r as int));
    }
    r
}

} // verus!
