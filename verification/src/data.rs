//! Voice tables: XG voices addressed by bank select MSB, program and bank select LSB, with
//! lookups by MSB area and the value lists the bank / program / variation sliders step through.

use vstd::prelude::*;
use crate::device::{Device, supported_msb_seq};

verus! {

/// One XG voice entry.
#[derive(Debug, Clone)]
pub struct Voice {
    /// Bank Select MSB
    pub msb: u8,
    /// Program Change (0-127)
    pub prg: u8,
    /// Bank Select LSB (variation number)
    pub lsb: u8,
    /// voice name (such as GrandPno)
    pub name: String,
    /// number of elements (missing in part of the source table)
    pub elc: Option<u8>,
    /// level / priority (may be missing)
    pub lvl: Option<u8>,
}

/// The voice table, with the voice indices of each MSB area in table order.
pub struct VoiceBank {
    pub voices: Vec<Voice>,
    msb_index: Vec<Vec<usize>>,
}

/// Indices (ascending) of the voices in MSB area `m`.
pub open spec fn msb_indices(vs: Seq<Voice>, m: u8) -> Seq<usize>
    decreases vs.len(),
{
    if vs.len() == 0 {
        Seq::empty()
    } else if vs.last().msb == m {
        msb_indices(vs.drop_last(), m).push((vs.len() - 1) as usize)
    } else {
        msb_indices(vs.drop_last(), m)
    }
}

/// The voices of MSB area `m`, in table order.
pub open spec fn voices_in(vs: Seq<Voice>, m: u8) -> Seq<Voice>
    decreases vs.len(),
{
    if vs.len() == 0 {
        Seq::empty()
    } else if vs.last().msb == m {
        voices_in(vs.drop_last(), m).push(vs.last())
    } else {
        voices_in(vs.drop_last(), m)
    }
}

/// The first voice of the table with this MSB, program and LSB.
pub open spec fn first_voice(vs: Seq<Voice>, msb: u8, prg: u8, lsb: u8) -> Option<Voice>
    decreases vs.len(),
{
    if vs.len() == 0 {
        None
    } else {
        match first_voice(vs.drop_last(), msb, prg, lsb) {
            Some(v) => Some(v),
            None => {
                let v = vs.last();
                if v.msb == msb && v.prg == prg && v.lsb == lsb { Some(v) } else { None }
            },
        }
    }
}

/// Strictly ascending.
pub open spec fn strictly_ascending(s: Seq<u8>) -> bool {
    forall|i: int, j: int| 0 <= i < j < s.len() ==> s[i] < s[j]
}

/// The LSB values of the voices with this MSB and program, at most 127.
pub open spec fn lsb_set(vs: Seq<Voice>, msb: u8, prg: u8) -> Set<u8> {
    Set::new(|l: u8| exists|i: int| 0 <= i < vs.len() && (#[trigger] vs[i]).msb == msb && vs[i].prg == prg && vs[i].lsb == l && l <= 127)
}

/// The program values of the voices with this MSB.
pub open spec fn prg_set(vs: Seq<Voice>, msb: u8) -> Set<u8> {
    Set::new(|p: u8| exists|i: int| 0 <= i < vs.len() && (#[trigger] vs[i]).msb == msb && vs[i].prg == p)
}

/// The MSB values of the table.
pub open spec fn msb_set(vs: Seq<Voice>) -> Set<u8> {
    Set::new(|m: u8| exists|i: int| 0 <= i < vs.len() && (#[trigger] vs[i]).msb == m)
}

impl VoiceBank {
    /// The voice table.
    pub closed spec fn table(&self) -> Seq<Voice> {
        self.voices@
    }

    /// The index lists match the table: bucket `m` holds the indices of MSB area `m`.
    pub closed spec fn wf(&self) -> bool {
        &&& self.msb_index@.len() == 256
        &&& forall|m: int| 0 <= m < 256 ==> (#[trigger] self.msb_index@[m])@ == msb_indices(self.voices@, m as u8)
    }
}

proof fn lemma_msb_indices(vs: Seq<Voice>, m: u8)
    requires
        vs.len() <= usize::MAX,
    ensures
        msb_indices(vs, m).len() == voices_in(vs, m).len(),
        forall|k: int| 0 <= k < msb_indices(vs, m).len() ==> {
            &&& (#[trigger] msb_indices(vs, m)[k]) < vs.len()
            &&& vs[msb_indices(vs, m)[k] as int] == voices_in(vs, m)[k]
            &&& vs[msb_indices(vs, m)[k] as int].msb == m
        },
        forall|k1: int, k2: int| 0 <= k1 < k2 < msb_indices(vs, m).len() ==>
            msb_indices(vs, m)[k1] < msb_indices(vs, m)[k2],
        forall|i: int| 0 <= i < vs.len() && (#[trigger] vs[i]).msb == m ==>
            exists|k: int| 0 <= k < msb_indices(vs, m).len() && msb_indices(vs, m)[k] == i,
    decreases vs.len(),
{
    if vs.len() > 0 {
        let t = vs.drop_last();
        lemma_msb_indices(t, m);
        assert forall|i: int| 0 <= i < t.len() implies vs[i] == t[i] by {}
        assert forall|i: int| 0 <= i < vs.len() && (#[trigger] vs[i]).msb == m implies
            exists|k: int| 0 <= k < msb_indices(vs, m).len() && msb_indices(vs, m)[k] == i by {
            if i == vs.len() - 1 {
                assert(msb_indices(vs, m)[msb_indices(vs, m).len() - 1] == i);
            } else {
                assert(t[i].msb == m);
                let k = choose|k: int| 0 <= k < msb_indices(t, m).len() && msb_indices(t, m)[k] == i;
                assert(msb_indices(vs, m)[k] == i);
            }
        }
    }
}

/// The members of `s` below `n`, ascending.
pub open spec fn ascending_upto(s: Set<u8>, n: int) -> Seq<u8>
    decreases n,
{
    if n <= 0 {
        Seq::empty()
    } else if s.contains((n - 1) as u8) {
        ascending_upto(s, n - 1).push((n - 1) as u8)
    } else {
        ascending_upto(s, n - 1)
    }
}

/// The members of a set of bytes, ascending.
pub open spec fn ascending(s: Set<u8>) -> Seq<u8> {
    ascending_upto(s, 256)
}

proof fn lemma_ascending_upto(s: Set<u8>, n: int)
    requires
        0 <= n <= 256,
    ensures
        strictly_ascending(ascending_upto(s, n)),
        forall|i: int| 0 <= i < ascending_upto(s, n).len() ==> (#[trigger] ascending_upto(s, n)[i]) < n,
        forall|x: u8| #[trigger] ascending_upto(s, n).to_set().contains(x) <==> (s.contains(x) && x < n),
    decreases n,
{
    if n > 0 {
        lemma_ascending_upto(s, n - 1);
        let p = ascending_upto(s, n - 1);
        if s.contains((n - 1) as u8) {
            let q = p.push((n - 1) as u8);
            assert forall|x: u8| #[trigger] q.to_set().contains(x) <==> (s.contains(x) && x < n) by {
                if q.to_set().contains(x) {
                    let i = choose|i: int| 0 <= i < q.len() && q[i] == x;
                    if i < p.len() {
                        assert(p.to_set().contains(x));
                    }
                }
                if s.contains(x) && x < n {
                    if x < n - 1 {
                        assert(p.to_set().contains(x));
                        let i = choose|i: int| 0 <= i < p.len() && p[i] == x;
                        assert(q[i] == x);
                    } else {
                        assert(q[q.len() - 1] == x);
                    }
                }
            }
        } else {
            assert forall|x: u8| #[trigger] p.to_set().contains(x) <==> (s.contains(x) && x < n) by {
                if s.contains(x) && x < n {
                    assert(x != n - 1);
                }
            }
        }
    }
}

/// Two strictly ascending sequences with the same members are equal.
proof fn lemma_ascending_unique(a: Seq<u8>, b: Seq<u8>)
    requires
        strictly_ascending(a),
        strictly_ascending(b),
        a.to_set() == b.to_set(),
    ensures
        a == b,
    decreases a.len() + b.len(),
{
    if a.len() == 0 {
        if b.len() > 0 {
            assert(b.to_set().contains(b[0]));
            assert(!a.to_set().contains(b[0]));
        }
        assert(a =~= b);
    } else if b.len() == 0 {
        assert(a.to_set().contains(a[0]));
        assert(!b.to_set().contains(a[0]));
    } else {
        let x = a.last();
        let y = b.last();
        assert(a.to_set().contains(x));
        assert(b.to_set().contains(y));
        let ib = choose|i: int| 0 <= i < b.len() && b[i] == x;
        let ia = choose|i: int| 0 <= i < a.len() && a[i] == y;
        assert(x == y) by {
            if x < y {
                assert(a[ia] == y);
                if ia < a.len() - 1 { assert(a[ia] < a[a.len() - 1]); }
            } else if y < x {
                assert(b[ib] == x);
                if ib < b.len() - 1 { assert(b[ib] < b[b.len() - 1]); }
            }
        }
        let a1 = a.drop_last();
        let b1 = b.drop_last();
        assert forall|e: u8| a1.to_set().contains(e) <==> b1.to_set().contains(e) by {
            if a1.to_set().contains(e) {
                let i = choose|i: int| 0 <= i < a1.len() && a1[i] == e;
                assert(a[i] == e && e < x);
                assert(b.to_set().contains(e) == a.to_set().contains(e));
                assert(a.to_set().contains(e));
                let k = choose|k: int| 0 <= k < b.len() && b[k] == e;
                assert(k != b.len() - 1);
                assert(b1[k] == e);
            }
            if b1.to_set().contains(e) {
                let i = choose|i: int| 0 <= i < b1.len() && b1[i] == e;
                assert(b[i] == e && e < y);
                assert(b.to_set().contains(e));
                let k = choose|k: int| 0 <= k < a.len() && a[k] == e;
                assert(k != a.len() - 1);
                assert(a1[k] == e);
            }
        }
        assert(a1.to_set() =~= b1.to_set());
        lemma_ascending_unique(a1, b1);
        assert(a =~= a1.push(x));
        assert(b =~= b1.push(y));
    }
}

/// The ascending listing of a set of bytes is strictly ascending and lists exactly its members.
pub proof fn lemma_ascending_members(s: Set<u8>)
    ensures
        strictly_ascending(ascending(s)),
        ascending(s).len() <= 256,
        forall|x: u8| #[trigger] ascending(s).contains(x) <==> s.contains(x),
{
    lemma_ascending_upto(s, 256);
    lemma_ascending_len(s, 256);
    assert forall|x: u8| #[trigger] ascending(s).contains(x) <==> s.contains(x) by {
        assert(ascending(s).to_set().contains(x) == ascending(s).contains(x));
    }
}

proof fn lemma_ascending_len(s: Set<u8>, n: int)
    requires
        0 <= n,
    ensures
        ascending_upto(s, n).len() <= n,
    decreases n,
{
    if n > 0 {
        lemma_ascending_len(s, n - 1);
    }
}

/// A strictly ascending sequence is the ascending listing of its members.
pub proof fn lemma_ascending_listing(a: Seq<u8>)
    requires
        strictly_ascending(a),
    ensures
        a == ascending(a.to_set()),
{
    lemma_ascending_upto(a.to_set(), 256);
    assert(ascending(a.to_set()).to_set() =~= a.to_set());
    lemma_ascending_unique(a, ascending(a.to_set()));
}

/// Inserts `x` into a strictly ascending sequence unless it is already there.
fn insert_unique(v: &mut Vec<u8>, x: u8)
    requires
        strictly_ascending(old(v)@),
    ensures
        strictly_ascending(final(v)@),
        final(v)@.to_set() == old(v)@.to_set().insert(x),
{
    let mut k: usize = 0;
    while k < v.len() && v[k] < x
        invariant
            v@ == old(v)@,
            0 <= k <= v@.len(),
            forall|j: int| 0 <= j < k ==> v@[j] < x,
        decreases v@.len() - k,
    {
        k = k + 1;
    }
    if k < v.len() && v[k] == x {
        assert(v@.to_set().insert(x) =~= v@.to_set()) by {
            assert(v@.to_set().contains(x)) by { assert(v@[k as int] == x); }
        }
        return;
    }
    v.insert(k, x);
    assert(v@ == old(v)@.insert(k as int, x));
    assert forall|e: u8| v@.to_set().contains(e) <==> old(v)@.to_set().insert(x).contains(e) by {
        if v@.to_set().contains(e) {
            let i = choose|i: int| 0 <= i < v@.len() && v@[i] == e;
            if i < k {
                assert(old(v)@[i] == e);
            } else if i > k {
                assert(old(v)@[i - 1] == e);
            }
        }
        if old(v)@.to_set().contains(e) {
            let i = choose|i: int| 0 <= i < old(v)@.len() && old(v)@[i] == e;
            if i < k {
                assert(v@[i] == e);
            } else {
                assert(v@[i + 1] == e);
            }
        }
        if e == x {
            assert(v@[k as int] == x);
        }
    }
    assert(v@.to_set() =~= old(v)@.to_set().insert(x));
}

impl VoiceBank {
    /// The bank of a voice list; an empty list is refused.
    pub fn from_direct(voices: Vec<Voice>) -> (r: Result<Self, String>)
        ensures
            voices@.len() == 0 ==> (r matches Err(e) && e@ == "音色表为空"@),
            voices@.len() > 0 ==> (r matches Ok(b) && b.wf() && b.table() == voices@),
    {
        if voices.len() == 0 {
            return Err("音色表为空".to_owned());
        }
        let mut msb_index: Vec<Vec<usize>> = Vec::new();
        let mut m: usize = 0;
        while m < 256
            invariant
                0 <= m <= 256,
                msb_index@.len() == m,
                forall|j: int| 0 <= j < m ==> (#[trigger] msb_index@[j])@ == Seq::<usize>::empty(),
            decreases 256 - m,
        {
            msb_index.push(Vec::new());
            m = m + 1;
        }
        let mut i: usize = 0;
        assert forall|j: int| 0 <= j < 256 implies (#[trigger] msb_index@[j])@ == msb_indices(voices@.take(0), j as u8) by {
            assert(voices@.take(0).len() == 0);
        }
        while i < voices.len()
            invariant
                0 <= i <= voices@.len(),
                msb_index@.len() == 256,
                forall|j: int| 0 <= j < 256 ==> (#[trigger] msb_index@[j])@ == msb_indices(voices@.take(i as int), j as u8),
            decreases voices@.len() - i,
        {
            let mb = voices[i].msb as usize;
            let ghost before = msb_index@;
            msb_index[mb].push(i);
            proof {
                let pre = voices@.take(i as int);
                let post = voices@.take(i + 1);
                assert(post.drop_last() =~= pre);
                assert forall|j: int| 0 <= j < 256 implies (#[trigger] msb_index@[j])@ == msb_indices(post, j as u8) by {
                    if j != mb {
                        assert(msb_index@[j] == before[j]);
                    }
                }
            }
            i = i + 1;
        }
        assert(voices@.take(voices@.len() as int) =~= voices@);
        Ok(VoiceBank { voices, msb_index })
    }

    /// The voices of one MSB area, in table order.
    pub fn by_msb(&self, msb: u8) -> (r: Vec<&Voice>)
        requires
            self.wf(),
        ensures
            r@.len() == voices_in(self.table(), msb).len(),
            forall|k: int| 0 <= k < r@.len() ==> *(#[trigger] r@[k]) == voices_in(self.table(), msb)[k],
    {
        let _n = self.voices.len();
        proof { lemma_msb_indices(self.voices@, msb); }
        let idxs = &self.msb_index[msb as usize];
        assert(idxs@ == msb_indices(self.voices@, msb));
        let mut r: Vec<&Voice> = Vec::new();
        let mut j: usize = 0;
        while j < idxs.len()
            invariant
                idxs@ == msb_indices(self.voices@, msb),
                msb_indices(self.voices@, msb).len() == voices_in(self.voices@, msb).len(),
                forall|k: int| 0 <= k < msb_indices(self.voices@, msb).len() ==> {
                    &&& (#[trigger] msb_indices(self.voices@, msb)[k]) < self.voices@.len()
                    &&& self.voices@[msb_indices(self.voices@, msb)[k] as int] == voices_in(self.voices@, msb)[k]
                },
                0 <= j <= idxs@.len(),
                r@.len() == j,
                forall|k: int| 0 <= k < j ==> *(#[trigger] r@[k]) == voices_in(self.voices@, msb)[k],
            decreases idxs@.len() - j,
        {
            let vi = idxs[j];
            assert(msb_indices(self.voices@, msb)[j as int] == vi);
            r.push(&self.voices[vi]);
            j = j + 1;
        }
        r
    }
}

/// Whether a voice has this MSB, program and LSB.
pub open spec fn voice_is(v: Voice, msb: u8, prg: u8, lsb: u8) -> bool {
    v.msb == msb && v.prg == prg && v.lsb == lsb
}

proof fn lemma_first_voice(vs: Seq<Voice>, msb: u8, prg: u8, lsb: u8)
    ensures
        first_voice(vs, msb, prg, lsb) matches Some(v) ==> exists|i: int| 0 <= i < vs.len() && vs[i] == v
            && voice_is(v, msb, prg, lsb) && forall|j: int| 0 <= j < i ==> !voice_is(#[trigger] vs[j], msb, prg, lsb),
        first_voice(vs, msb, prg, lsb) is None ==> forall|j: int| 0 <= j < vs.len() ==> !voice_is(#[trigger] vs[j], msb, prg, lsb),
    decreases vs.len(),
{
    if vs.len() > 0 {
        let t = vs.drop_last();
        lemma_first_voice(t, msb, prg, lsb);
        assert forall|j: int| 0 <= j < t.len() implies vs[j] == t[j] by {}
        if let Some(v) = first_voice(t, msb, prg, lsb) {
            let i = choose|i: int| 0 <= i < t.len() && t[i] == v && voice_is(v, msb, prg, lsb)
                && forall|j: int| 0 <= j < i ==> !voice_is(#[trigger] t[j], msb, prg, lsb);
            assert(vs[i] == v);
        }
    }
}

/// The voices shown for a device: LSB at most 127 and an MSB area the device supports.
pub open spec fn device_voices(vs: Seq<Voice>, d: Device) -> Seq<Voice>
    decreases vs.len(),
{
    if vs.len() == 0 {
        Seq::empty()
    } else {
        let v = vs.last();
        if v.lsb <= 127 && supported_msb_seq(d).contains(v.msb) {
            device_voices(vs.drop_last(), d).push(v)
        } else {
            device_voices(vs.drop_last(), d)
        }
    }
}

/// Orders voices by (MSB, program, LSB).
pub open spec fn voice_key() -> spec_fn(Voice) -> u64 {
    |v: Voice| ((v.msb as u64) * 65536 + (v.prg as u64) * 256 + (v.lsb as u64)) as u64
}

/// MU90 drum kit (MSB 127) LCD names by 0-based program; other programs show "Drum".
pub open spec fn drum_name(prg0: u8) -> Seq<char> {
    if prg0 == 0 {
        "StandKit"@
    } else if prg0 == 1 {
        "Standrd2"@
    } else if prg0 == 2 {
        "Dry Kit"@
    } else if prg0 == 3 {
        "BrightKt"@
    } else if prg0 == 8 {
        "Room Kit"@
    } else if prg0 == 9 {
        "DarkRoom"@
    } else if prg0 == 16 {
        "Rock Kit"@
    } else if prg0 == 17 {
        "RockKit2"@
    } else if prg0 == 24 {
        "ElectrKt"@
    } else if prg0 == 25 {
        "AnalogKt"@
    } else if prg0 == 26 {
        "AnalgKt2"@
    } else if prg0 == 27 {
        "DanceKit"@
    } else if prg0 == 28 {
        "HipHopKt"@
    } else if prg0 == 29 {
        "JungleKt"@
    } else if prg0 == 32 {
        "Jazz Kit"@
    } else if prg0 == 33 {
        "JazzKit2"@
    } else if prg0 == 40 {
        "BrushKit"@
    } else if prg0 == 48 {
        "SymphnKt"@
    } else {
        "Drum"@
    }
}

/// LCD 8-character name of an MU90 drum kit (MSB 127) by 0-based program.
pub fn drum_display_name(prg0: u8) -> (r: &'static str)
    ensures
        r@ == drum_name(prg0),
{
    match prg0 {
        0 => "StandKit",
        1 => "Standrd2",
        2 => "Dry Kit",
        3 => "BrightKt",
        8 => "Room Kit",
        9 => "DarkRoom",
        16 => "Rock Kit",
        17 => "RockKit2",
        24 => "ElectrKt",
        25 => "AnalogKt",
        26 => "AnalgKt2",
        27 => "DanceKit",
        28 => "HipHopKt",
        29 => "JungleKt",
        32 => "Jazz Kit",
        33 => "JazzKit2",
        40 => "BrushKit",
        48 => "SymphnKt",
        _ => "Drum",
    }
}

impl VoiceBank {
    /// XG melodic voice area (MSB 0); MSB 127 is the drum area.
    pub const XG_MSB: u8 = 0;

    /// The first voice with this MSB, program and LSB; none for an LSB above 127.
    pub fn find(&self, msb: u8, prg: u8, lsb: u8) -> (r: Option<&Voice>)
        requires
            self.wf(),
        ensures
            lsb > 127 ==> r is None,
            lsb <= 127 ==> match r {
                Some(v) => first_voice(self.table(), msb, prg, lsb) == Some(*v),
                None => first_voice(self.table(), msb, prg, lsb) is None,
            },
    {
        if lsb > 127 {
            // a 7-bit bank select LSB cannot address a bank above 127
            return None;
        }
        let _n = self.voices.len();
        let ghost vs = self.voices@;
        proof {
            lemma_msb_indices(vs, msb);
            lemma_first_voice(vs, msb, prg, lsb);
        }
        let idxs = &self.msb_index[msb as usize];
        let mut j: usize = 0;
        while j < idxs.len()
            invariant
                lsb <= 127,
                vs == self.voices@,
                idxs@ == msb_indices(vs, msb),
                forall|k: int| 0 <= k < msb_indices(vs, msb).len() ==> {
                    &&& (#[trigger] msb_indices(vs, msb)[k]) < vs.len()
                    &&& vs[msb_indices(vs, msb)[k] as int].msb == msb
                },
                forall|k1: int, k2: int| 0 <= k1 < k2 < msb_indices(vs, msb).len() ==>
                    msb_indices(vs, msb)[k1] < msb_indices(vs, msb)[k2],
                forall|i: int| 0 <= i < vs.len() && (#[trigger] vs[i]).msb == msb ==>
                    exists|k: int| 0 <= k < msb_indices(vs, msb).len() && msb_indices(vs, msb)[k] == i,
                0 <= j <= idxs@.len(),
                forall|k: int| 0 <= k < j ==> !voice_is(vs[(#[trigger] idxs@[k]) as int], msb, prg, lsb),
            decreases idxs@.len() - j,
        {
            let vi = idxs[j];
            if self.voices[vi].prg == prg && self.voices[vi].lsb == lsb {
                proof {
                    lemma_first_voice(vs, msb, prg, lsb);
                    assert forall|i: int| 0 <= i < vi implies !voice_is(#[trigger] vs[i], msb, prg, lsb) by {
                        if vs[i].msb == msb {
                            let k = choose|k: int| 0 <= k < msb_indices(vs, msb).len() && msb_indices(vs, msb)[k] == i;
                            if k >= j {
                                if k > j {
                                    assert(msb_indices(vs, msb)[j as int] < msb_indices(vs, msb)[k]);
                                }
                            }
                        }
                    }
                    if let Some(v) = first_voice(vs, msb, prg, lsb) {
                        let i = choose|i: int| 0 <= i < vs.len() && vs[i] == v
                            && voice_is(v, msb, prg, lsb) && forall|j2: int| 0 <= j2 < i ==> !voice_is(#[trigger] vs[j2], msb, prg, lsb);
                        if i < vi {
                        } else if i > vi {
                            assert(!voice_is(vs[vi as int], msb, prg, lsb));
                        }
                    }
                }
                return Some(&self.voices[vi]);
            }
            j = j + 1;
        }
        proof {
            lemma_first_voice(vs, msb, prg, lsb);
            if let Some(v) = first_voice(vs, msb, prg, lsb) {
                let i = choose|i: int| 0 <= i < vs.len() && vs[i] == v
                    && voice_is(v, msb, prg, lsb) && forall|j2: int| 0 <= j2 < i ==> !voice_is(#[trigger] vs[j2], msb, prg, lsb);
                let k = choose|k: int| 0 <= k < msb_indices(vs, msb).len() && msb_indices(vs, msb)[k] == i;
                assert(!voice_is(vs[idxs@[k] as int], msb, prg, lsb));
            }
        }
        None
    }

    /// The XG melodic voice (MSB 0, LSB 0) of a program.
    pub fn xg_by_prg(&self, prg: u8) -> (r: Option<&Voice>)
        requires
            self.wf(),
        ensures
            match r {
                Some(v) => first_voice(self.table(), 0, prg, 0) == Some(*v),
                None => first_voice(self.table(), 0, prg, 0) is None,
            },
    {
        self.find(Self::XG_MSB, prg, 0)
    }
}

/// The voices a sequence of references points to.
pub open spec fn derefs(s: Seq<&Voice>) -> Seq<Voice> {
    s.map_values(|r: &Voice| *r)
}

fn key_of(v: &Voice) -> (r: u64)
    ensures
        r == (voice_key())(*v),
{
    (v.msb as u64) * 65536 + (v.prg as u64) * 256 + (v.lsb as u64)
}

/// Same (MSB, program, LSB).
pub open spec fn same_key(a: Voice, b: Voice) -> bool {
    a.msb == b.msb && a.prg == b.prg && a.lsb == b.lsb
}

/// Position of the first voice of `s` with the (MSB, program, LSB) of `v`, or -1.
pub open spec fn first_with(s: Seq<Voice>, v: Voice) -> int
    decreases s.len(),
{
    if s.len() == 0 {
        -1
    } else if first_with(s.drop_last(), v) >= 0 {
        first_with(s.drop_last(), v)
    } else if same_key(s.last(), v) {
        s.len() - 1
    } else {
        -1
    }
}

/// `first_with` finds the first position holding the triple of `v`, and finds none exactly
/// when no voice of `s` has it.
pub proof fn lemma_first_with(s: Seq<Voice>, v: Voice)
    ensures
        first_with(s, v) >= 0 ==> {
            &&& first_with(s, v) < s.len()
            &&& same_key(s[first_with(s, v)], v)
            &&& forall|k: int| 0 <= k < first_with(s, v) ==> !same_key(#[trigger] s[k], v)
        },
        first_with(s, v) < 0 ==> first_with(s, v) == -1 && forall|k: int| 0 <= k < s.len() ==> !same_key(#[trigger] s[k], v),
    decreases s.len(),
{
    if s.len() > 0 {
        let t = s.drop_last();
        lemma_first_with(t, v);
        let p = first_with(t, v);
        if p >= 0 {
            assert(first_with(s, v) == p);
            assert(s[p] == t[p]);
            assert forall|k: int| 0 <= k < p implies !same_key(#[trigger] s[k], v) by {
                assert(s[k] == t[k]);
            }
        } else if same_key(s.last(), v) {
            assert(first_with(s, v) == s.len() - 1);
            assert forall|k: int| 0 <= k < s.len() - 1 implies !same_key(#[trigger] s[k], v) by {
                assert(s[k] == t[k]);
            }
        } else {
            assert(first_with(s, v) == -1);
            assert forall|k: int| 0 <= k < s.len() implies !same_key(#[trigger] s[k], v) by {
                if k < s.len() - 1 {
                    assert(s[k] == t[k]);
                }
            }
        }
    }
}

/// `r` is the menu of the voices `s`: (MSB, program, LSB) strictly ascending along `r`, each
/// entry the first voice of `s` with its three values, and every triple of `s` present.
pub open spec fn key_menu(r: Seq<Voice>, s: Seq<Voice>) -> bool {
    &&& forall|i: int, j: int| 0 <= i < j < r.len() ==> (voice_key())(#[trigger] r[i]) < (voice_key())(#[trigger] r[j])
    &&& forall|i: int| #![trigger r[i]] 0 <= i < r.len() ==> 0 <= first_with(s, r[i]) && s[first_with(s, r[i])] == r[i]
    &&& forall|j: int| 0 <= j < s.len() ==> 0 <= #[trigger] first_with(r, s[j])
}

/// Equal sort keys mean equal (MSB, program, LSB).
proof fn lemma_key_injective(a: Voice, b: Voice)
    ensures
        (voice_key())(a) == (voice_key())(b) ==> same_key(a, b),
{
    let (am, ap, al, bm, bp, bl) = (a.msb as int, a.prg as int, a.lsb as int, b.msb as int, b.prg as int, b.lsb as int);
    assert(am * 65536 + ap * 256 + al == bm * 65536 + bp * 256 + bl ==> am == bm && ap == bp && al == bl) by (nonlinear_arith)
        requires
            0 <= am < 256, 0 <= ap < 256, 0 <= al < 256,
            0 <= bm < 256, 0 <= bp < 256, 0 <= bl < 256,
    {
        if am * 65536 + ap * 256 + al == bm * 65536 + bp * 256 + bl {
            assert(am == bm);
            assert(ap == bp);
        }
    }
}

/// Whether some row has the (MSB, program, LSB) of `v`.
fn has_key(rows: &Vec<&Voice>, v: &Voice) -> (r: bool)
    ensures
        r == exists|i: int| 0 <= i < rows@.len() && same_key(*rows@[i], *v),
{
    let mut i: usize = 0;
    while i < rows.len()
        invariant
            0 <= i <= rows@.len(),
            forall|j: int| 0 <= j < i ==> !same_key(*#[trigger] rows@[j], *v),
        decreases rows@.len() - i,
    {
        let x = rows[i];
        if x.msb == v.msb && x.prg == v.prg && x.lsb == v.lsb {
            assert(same_key(*rows@[i as int], *v));
            return true;
        }
        i = i + 1;
    }
    false
}

/// Inserts `v` after the last row whose key is at most `v`'s; returns its position.
fn insert_voice<'a>(rows: &mut Vec<&'a Voice>, v: &'a Voice) -> (k: usize)
    ensures
        k <= old(rows)@.len(),
        final(rows)@ == old(rows)@.take(k as int).push(v) + old(rows)@.skip(k as int),
        k > 0 ==> (voice_key())(*old(rows)@[k - 1]) <= (voice_key())(*v),
        forall|j: int| k <= j < old(rows)@.len() ==> (voice_key())(*#[trigger] old(rows)@[j]) > (voice_key())(*v),
{
    let kv = key_of(v);
    let mut k = rows.len();
    while k > 0 && key_of(rows[k - 1]) > kv
        invariant
            rows@ == old(rows)@,
            kv == (voice_key())(*v),
            0 <= k <= rows@.len(),
            forall|j: int| k <= j < rows@.len() ==> (voice_key())(*#[trigger] rows@[j]) > (voice_key())(*v),
        decreases k,
    {
        k = k - 1;
    }
    rows.insert(k, v);
    assert(rows@ =~= old(rows)@.take(k as int).push(v) + old(rows)@.skip(k as int));
    k
}

/// A voice already in the menu by its triple leaves the menu as it is.
proof fn lemma_menu_skip(r: Seq<Voice>, s: Seq<Voice>, v: Voice, i0: int)
    requires
        key_menu(r, s),
        0 <= i0 < r.len(),
        same_key(r[i0], v),
    ensures
        key_menu(r, s.push(v)),
{
    let s2 = s.push(v);
    assert(s2.drop_last() =~= s);
    assert forall|i: int| #![trigger r[i]] 0 <= i < r.len() implies 0 <= first_with(s2, r[i]) && s2[first_with(s2, r[i])] == r[i] by {
        let x = r[i];
        assert(0 <= first_with(s, x) && s[first_with(s, x)] == x);
        assert(first_with(s2, x) == first_with(s, x));
        lemma_first_with(s, x);
        assert(s2[first_with(s, x)] == s[first_with(s, x)]);
    }
    assert forall|j: int| 0 <= j < s2.len() implies 0 <= #[trigger] first_with(r, s2[j]) by {
        if j < s.len() {
            assert(s2[j] == s[j]);
            assert(0 <= first_with(r, s[j]));
        } else {
            lemma_first_with(r, v);
            assert(s2[j] == v);
        }
    }
}

/// A voice whose triple is new goes in at its key position.
#[verifier::rlimit(40)]
proof fn lemma_menu_insert(r: Seq<Voice>, s: Seq<Voice>, v: Voice, k: int)
    requires
        key_menu(r, s),
        forall|i: int| 0 <= i < r.len() ==> !same_key(#[trigger] r[i], v),
        0 <= k <= r.len(),
        k > 0 ==> (voice_key())(r[k - 1]) <= (voice_key())(v),
        forall|j: int| k <= j < r.len() ==> (voice_key())(#[trigger] r[j]) > (voice_key())(v),
    ensures
        key_menu(r.take(k).push(v) + r.skip(k), s.push(v)),
{
    let s2 = s.push(v);
    assert(s2.drop_last() =~= s);
    let r2 = r.take(k).push(v) + r.skip(k);
    assert(r2.len() == r.len() + 1);
    assert forall|i: int| 0 <= i < r2.len() implies #[trigger] r2[i] == (if i < k { r[i] } else if i == k { v } else { r[i - 1] }) by {}
    if k > 0 {
        lemma_key_injective(r[k - 1], v);
    }
    assert forall|i: int, j: int| 0 <= i < j < r2.len() implies (voice_key())(#[trigger] r2[i]) < (voice_key())(#[trigger] r2[j]) by {
        if i < k && j < k {
            assert(r2[i] == r[i] && r2[j] == r[j]);
        } else if i < k && j == k {
            assert(r2[i] == r[i] && r2[j] == v);
            if i < k - 1 {
                assert((voice_key())(r[i]) < (voice_key())(r[k - 1]));
            }
        } else if i < k {
            assert(r2[i] == r[i] && r2[j] == r[j - 1]);
            assert((voice_key())(r[i]) < (voice_key())(r[j - 1]));
        } else if i == k {
            assert(r2[i] == v && r2[j] == r[j - 1]);
            assert((voice_key())(r[j - 1]) > (voice_key())(v));
        } else {
            assert(r2[i] == r[i - 1] && r2[j] == r[j - 1]);
            assert((voice_key())(r[i - 1]) < (voice_key())(r[j - 1]));
        }
    }
    // no voice of s has v's triple
    lemma_first_with(s, v);
    if first_with(s, v) >= 0 {
        let m = first_with(s, v);
        assert(0 <= first_with(r, s[m]));
        lemma_first_with(r, s[m]);
        let i = first_with(r, s[m]);
        assert(same_key(r[i], v));
        assert(false);
    }
    assert(first_with(s2, v) == s.len());
    assert forall|i: int| #![trigger r2[i]] 0 <= i < r2.len() implies 0 <= first_with(s2, r2[i]) && s2[first_with(s2, r2[i])] == r2[i] by {
        if i == k {
            assert(r2[i] == v);
        } else {
            let oi = if i < k { i } else { i - 1 };
            assert(r2[i] == r[oi]);
            let x = r[oi];
            assert(0 <= first_with(s, x) && s[first_with(s, x)] == x);
            assert(first_with(s2, x) == first_with(s, x));
            lemma_first_with(s, x);
            assert(s2[first_with(s, x)] == s[first_with(s, x)]);
        }
    }
    assert forall|j: int| 0 <= j < s2.len() implies 0 <= #[trigger] first_with(r2, s2[j]) by {
        let x = s2[j];
        if j < s.len() {
            assert(x == s[j]);
            assert(0 <= first_with(r, s[j]));
            lemma_first_with(r, x);
            let i = first_with(r, x);
            let i2 = if i < k { i } else { i + 1 };
            assert(r2[i2] == r[i]);
            lemma_first_with(r2, x);
        } else {
            assert(x == v);
            assert(r2[k] == v);
            lemma_first_with(r2, x);
        }
    }
}

impl VoiceBank {
    /// The valid LSB variations (at most 127, ascending, each once) of a program in an MSB
    /// area: the values the variation slider steps through.
    pub fn lsb_variants(&self, msb: u8, prg: u8) -> (r: Vec<u8>)
        requires
            self.wf(),
        ensures
            strictly_ascending(r@),
            r@.to_set() == lsb_set(self.table(), msb, prg),
            r@ == ascending(lsb_set(self.table(), msb, prg)),
    {
        let _n = self.voices.len();
        let ghost vs = self.voices@;
        proof { lemma_msb_indices(vs, msb); }
        let idxs = &self.msb_index[msb as usize];
        let mut r: Vec<u8> = Vec::new();
        let mut j: usize = 0;
        while j < idxs.len()
            invariant
                vs == self.voices@,
                idxs@ == msb_indices(vs, msb),
                forall|k: int| 0 <= k < msb_indices(vs, msb).len() ==> {
                    &&& (#[trigger] msb_indices(vs, msb)[k]) < vs.len()
                    &&& vs[msb_indices(vs, msb)[k] as int].msb == msb
                },
                0 <= j <= idxs@.len(),
                strictly_ascending(r@),
                r@.to_set() == Set::new(|l: u8| exists|k: int| 0 <= k < j && vs[(#[trigger] idxs@[k]) as int].prg == prg
                    && vs[idxs@[k] as int].lsb == l && l <= 127),
            decreases idxs@.len() - j,
        {
            let vi = idxs[j];
            let ghost before = r@.to_set();
            let v = &self.voices[vi];
            if v.prg == prg && v.lsb <= 127 {
                insert_unique(&mut r, v.lsb);
            }
            proof {
                assert(r@.to_set() =~= Set::new(|l: u8| exists|k: int| 0 <= k < j + 1 && vs[(#[trigger] idxs@[k]) as int].prg == prg
                    && vs[idxs@[k] as int].lsb == l && l <= 127)) by {
                    assert forall|l: u8| #[trigger] r@.to_set().contains(l) implies exists|k: int| 0 <= k < j + 1 && vs[(#[trigger] idxs@[k]) as int].prg == prg
                        && vs[idxs@[k] as int].lsb == l && l <= 127 by {
                        if !before.contains(l) {
                            assert(idxs@[j as int] == vi);
                        }
                    }
                    assert forall|l: u8| (exists|k: int| 0 <= k < j + 1 && vs[(#[trigger] idxs@[k]) as int].prg == prg
                        && vs[idxs@[k] as int].lsb == l && l <= 127) implies #[trigger] r@.to_set().contains(l) by {
                        let k = choose|k: int| 0 <= k < j + 1 && vs[(#[trigger] idxs@[k]) as int].prg == prg
                            && vs[idxs@[k] as int].lsb == l && l <= 127;
                        if k < j {
                            assert(before.contains(l));
                        }
                    }
                }
            }
            j = j + 1;
        }
        proof {
            assert(r@.to_set() =~= lsb_set(vs, msb, prg)) by {
                assert forall|l: u8| #[trigger] lsb_set(vs, msb, prg).contains(l) implies r@.to_set().contains(l) by {
                    let i = choose|i: int| 0 <= i < vs.len() && (#[trigger] vs[i]).msb == msb && vs[i].prg == prg && vs[i].lsb == l && l <= 127;
                    let k = choose|k: int| 0 <= k < msb_indices(vs, msb).len() && msb_indices(vs, msb)[k] == i;
                    assert(vs[idxs@[k] as int].prg == prg);
                }
                assert forall|l: u8| #[trigger] r@.to_set().contains(l) implies lsb_set(vs, msb, prg).contains(l) by {
                    let k = choose|k: int| 0 <= k < j && vs[(#[trigger] idxs@[k]) as int].prg == prg
                        && vs[idxs@[k] as int].lsb == l && l <= 127;
                    let i = idxs@[k] as int;
                    assert(vs[i].msb == msb);
                }
            }
            lemma_ascending_listing(r@);
        }
        r
    }

    /// The program numbers (ascending, each once) of an MSB area: the values the program
    /// slider steps through.
    pub fn prg_values(&self, msb: u8) -> (r: Vec<u8>)
        requires
            self.wf(),
        ensures
            strictly_ascending(r@),
            r@.to_set() == prg_set(self.table(), msb),
            r@ == ascending(prg_set(self.table(), msb)),
    {
        let _n = self.voices.len();
        let ghost vs = self.voices@;
        proof { lemma_msb_indices(vs, msb); }
        let idxs = &self.msb_index[msb as usize];
        let mut r: Vec<u8> = Vec::new();
        let mut j: usize = 0;
        while j < idxs.len()
            invariant
                vs == self.voices@,
                idxs@ == msb_indices(vs, msb),
                forall|k: int| 0 <= k < msb_indices(vs, msb).len() ==> {
                    &&& (#[trigger] msb_indices(vs, msb)[k]) < vs.len()
                    &&& vs[msb_indices(vs, msb)[k] as int].msb == msb
                },
                0 <= j <= idxs@.len(),
                strictly_ascending(r@),
                r@.to_set() == Set::new(|p: u8| exists|k: int| 0 <= k < j && vs[(#[trigger] idxs@[k]) as int].prg == p),
            decreases idxs@.len() - j,
        {
            let vi = idxs[j];
            let ghost before = r@.to_set();
            insert_unique(&mut r, self.voices[vi].prg);
            proof {
                assert(r@.to_set() =~= Set::new(|p: u8| exists|k: int| 0 <= k < j + 1 && vs[(#[trigger] idxs@[k]) as int].prg == p)) by {
                    assert forall|p: u8| #[trigger] r@.to_set().contains(p) implies exists|k: int| 0 <= k < j + 1 && vs[(#[trigger] idxs@[k]) as int].prg == p by {
                        if !before.contains(p) {
                            assert(idxs@[j as int] == vi);
                        }
                    }
                    assert forall|p: u8| (exists|k: int| 0 <= k < j + 1 && vs[(#[trigger] idxs@[k]) as int].prg == p) implies #[trigger] r@.to_set().contains(p) by {
                        let k = choose|k: int| 0 <= k < j + 1 && vs[(#[trigger] idxs@[k]) as int].prg == p;
                        if k < j {
                            assert(before.contains(p));
                        }
                    }
                }
            }
            j = j + 1;
        }
        proof {
            assert(r@.to_set() =~= prg_set(vs, msb)) by {
                assert forall|p: u8| #[trigger] prg_set(vs, msb).contains(p) implies r@.to_set().contains(p) by {
                    let i = choose|i: int| 0 <= i < vs.len() && (#[trigger] vs[i]).msb == msb && vs[i].prg == p;
                    let k = choose|k: int| 0 <= k < msb_indices(vs, msb).len() && msb_indices(vs, msb)[k] == i;
                    assert(vs[idxs@[k] as int].prg == p);
                }
                assert forall|p: u8| #[trigger] r@.to_set().contains(p) implies prg_set(vs, msb).contains(p) by {
                    let k = choose|k: int| 0 <= k < j && vs[(#[trigger] idxs@[k]) as int].prg == p;
                    let i = idxs@[k] as int;
                    assert(vs[i].msb == msb);
                }
            }
            lemma_ascending_listing(r@);
        }
        r
    }

    /// The MSB areas of the table (ascending, each once): the values the bank slider steps
    /// through.
    pub fn msb_values(&self) -> (r: Vec<u8>)
        requires
            self.wf(),
        ensures
            strictly_ascending(r@),
            r@.to_set() == msb_set(self.table()),
            r@ == ascending(msb_set(self.table())),
    {
        let _n = self.voices.len();
        let ghost vs = self.voices@;
        let mut r: Vec<u8> = Vec::new();
        let mut m: usize = 0;
        while m < 256
            invariant
                vs == self.voices@,
                vs.len() <= usize::MAX,
                self.wf(),
                0 <= m <= 256,
                forall|i: int| 0 <= i < r@.len() ==> r@[i] < m,
                strictly_ascending(r@),
                r@.to_set() == Set::new(|x: u8| x < m && msb_set(vs).contains(x)),
            decreases 256 - m,
        {
            let mb = m as u8;
            proof { lemma_msb_indices(vs, mb); }
            let nonempty = self.msb_index[m].len() > 0;
            assert(self.msb_index@[m as int]@ == msb_indices(vs, mb));
            proof {
                if nonempty {
                    let i = msb_indices(vs, mb)[0] as int;
                    assert(vs[i].msb == mb);
                    assert(msb_set(vs).contains(mb));
                } else {
                    assert forall|i: int| 0 <= i < vs.len() implies (#[trigger] vs[i]).msb != mb by {
                        if vs[i].msb == mb {
                            let k = choose|k: int| 0 <= k < msb_indices(vs, mb).len() && msb_indices(vs, mb)[k] == i;
                        }
                    }
                }
            }
            let ghost before = r@;
            if nonempty {
                r.push(mb);
            }
            proof {
                assert(r@.to_set() =~= Set::new(|x: u8| x < m + 1 && msb_set(vs).contains(x))) by {
                    assert forall|x: u8| #[trigger] r@.to_set().contains(x) implies x < m + 1 && msb_set(vs).contains(x) by {
                        let i = choose|i: int| 0 <= i < r@.len() && r@[i] == x;
                        if i < before.len() {
                            assert(before.to_set().contains(x));
                        }
                    }
                    assert forall|x: u8| x < m + 1 && msb_set(vs).contains(x) implies #[trigger] r@.to_set().contains(x) by {
                        if x < m {
                            assert(before.to_set().contains(x));
                            let i = choose|i: int| 0 <= i < before.len() && before[i] == x;
                            assert(r@[i] == x);
                        } else {
                            assert(r@[r@.len() - 1] == x);
                        }
                    }
                }
            }
            m = m + 1;
        }
        assert(r@.to_set() =~= msb_set(vs));
        proof { lemma_ascending_listing(r@); }
        r
    }

    /// The voices a device can sound (LSB at most 127, MSB in the device's areas), without
    /// repeats and ordered by (MSB, program, LSB): of voices with the same three values the
    /// first in the table is listed.
    pub fn voices_for_device(&self, device: Device) -> (r: Vec<&Voice>)
        ensures
            key_menu(derefs(r@), device_voices(self.table(), device)),
    {
        let mut r: Vec<&Voice> = Vec::new();
        let mut i: usize = 0;
        assert(self.voices@.take(0) =~= Seq::<Voice>::empty());
        while i < self.voices.len()
            invariant
                0 <= i <= self.voices@.len(),
                key_menu(derefs(r@), device_voices(self.voices@.take(i as int), device)),
            decreases self.voices@.len() - i,
        {
            let v = &self.voices[i];
            let ghost pre = self.voices@.take(i as int);
            let ghost dv = device_voices(pre, device);
            let ghost before = derefs(r@);
            let ghost rb = r@;
            assert(self.voices@.take(i + 1).drop_last() =~= pre);
            if v.lsb <= 127 && device.supports_msb(v.msb) {
                assert(device_voices(self.voices@.take(i + 1), device) == dv.push(*v));
                if has_key(&r, v) {
                    proof {
                        let i0 = choose|i0: int| 0 <= i0 < r@.len() && same_key(*r@[i0], *v);
                        assert(before[i0] == *r@[i0]);
                        lemma_menu_skip(before, dv, *v, i0);
                    }
                } else {
                    let k = insert_voice(&mut r, v);
                    proof {
                        assert forall|m: int| 0 <= m < before.len() implies !same_key(#[trigger] before[m], *v) by {
                            assert(before[m] == *rb[m]);
                        }
                        lemma_menu_insert(before, dv, *v, k as int);
                        assert(derefs(r@) =~= before.take(k as int).push(*v) + before.skip(k as int));
                    }
                }
            }
            i = i + 1;
        }
        assert(self.voices@.take(self.voices@.len() as int) =~= self.voices@);
        r
    }
}

} // verus!
