use vstd::prelude::*;
use vstd::bytes::{
    lemma_auto_spec_u64_to_from_le_bytes, spec_u64_from_le_bytes, spec_u64_to_le_bytes,
    u64_from_le_bytes, u64_to_le_bytes,
};
use vstd::slice::{slice_subrange, slice_to_vec};
use crate::identity::Identity;
use crate::ledger::{valid_state, AccountView, Ledger};
use crate::LedgerError;

verus! {

/// The format version written as the first byte of every snapshot.
pub const SNAPSHOT_VERSION: u8 = 1;

/// One record: the identity's length as a little-endian `u64`, the identity's
/// bytes, and the balance as a little-endian `u64`.
pub open spec fn encode_record(r: AccountView) -> Seq<u8> {
    spec_u64_to_le_bytes(r.0.len() as u64) + r.0 + spec_u64_to_le_bytes(r.1)
}

/// The records one after the other, in order.
pub open spec fn encode_records(s: Seq<AccountView>) -> Seq<u8>
    decreases s.len(),
{
    if s.len() == 0 {
        Seq::empty()
    } else {
        encode_records(s.drop_last()) + encode_record(s.last())
    }
}

/// The version byte and the number of records as a little-endian `u64`.
pub open spec fn snapshot_header(count: u64) -> Seq<u8> {
    seq![SNAPSHOT_VERSION] + spec_u64_to_le_bytes(count)
}

/// The snapshot of a ledger state: its header, then its records.
pub open spec fn encode_ledger(s: Seq<AccountView>) -> Seq<u8> {
    snapshot_header(s.len() as u64) + encode_records(s)
}

/// Whether `b` is the snapshot of some state a ledger can be in.
pub open spec fn is_snapshot(b: Seq<u8>) -> bool {
    exists|s: Seq<AccountView>| valid_state(s) && #[trigger] encode_ledger(s) == b
}

proof fn lemma_record_len(r: AccountView)
    ensures
        encode_record(r).len() == 16 + r.0.len(),
{
    lemma_auto_spec_u64_to_from_le_bytes();
    assert(spec_u64_to_le_bytes(r.0.len() as u64).len() == 8);
    assert(spec_u64_to_le_bytes(r.1).len() == 8);
}

proof fn lemma_records_split(a: Seq<AccountView>, b: Seq<AccountView>)
    ensures
        encode_records(a + b) == encode_records(a) + encode_records(b),
    decreases b.len(),
{
    if b.len() == 0 {
        assert(a + b =~= a);
        assert(encode_records(a) + encode_records(b) =~= encode_records(a));
    } else {
        lemma_records_split(a, b.drop_last());
        assert((a + b).drop_last() =~= a + b.drop_last());
        assert(encode_records(a) + encode_records(b) =~= encode_records(a) + encode_records(
            b.drop_last(),
        ) + encode_record(b.last()));
    }
}

proof fn lemma_records_push(s: Seq<AccountView>, r: AccountView)
    ensures
        encode_records(s.push(r)) == encode_records(s) + encode_record(r),
{
    assert(s.push(r).drop_last() =~= s);
}

/// Where `b` is the snapshot of `t` and `pos` the end of its first `k`
/// records, the next record of `t` stands in `b` at `pos`.
proof fn lemma_next_record(b: Seq<u8>, t: Seq<AccountView>, k: int, pos: int)
    requires
        encode_ledger(t) == b,
        0 <= k < t.len(),
        pos == 9 + encode_records(t.take(k)).len(),
    ensures
        b.len() >= pos + 16 + t[k].0.len(),
        b.subrange(pos, pos + 8) == spec_u64_to_le_bytes(t[k].0.len() as u64),
        b.subrange(pos + 8, pos + 8 + t[k].0.len()) == t[k].0,
        b.subrange(pos + 8 + t[k].0.len(), pos + 16 + t[k].0.len()) == spec_u64_to_le_bytes(t[k].1),
        encode_records(t.take(k + 1)).len() == encode_records(t.take(k)).len() + 16 + t[k].0.len(),
{
    lemma_auto_spec_u64_to_from_le_bytes();
    let h = snapshot_header(t.len() as u64);
    assert(h.len() == 9);
    let r = t[k];
    assert(t =~= t.take(k + 1) + t.skip(k + 1));
    assert(t.take(k + 1) =~= t.take(k).push(r));
    lemma_records_split(t.take(k + 1), t.skip(k + 1));
    lemma_records_push(t.take(k), r);
    lemma_record_len(r);
    let e = encode_record(r);
    let before = encode_records(t.take(k));
    let after = encode_records(t.skip(k + 1));
    assert(b =~= h + before + e + after);
    let l = r.0.len() as int;
    assert(b.subrange(pos, pos + 8) =~= spec_u64_to_le_bytes(r.0.len() as u64));
    assert(b.subrange(pos + 8, pos + 8 + l) =~= r.0);
    assert(b.subrange(pos + 8 + l, pos + 16 + l) =~= spec_u64_to_le_bytes(r.1));
}

/// Two records followed by anything are equal as bytes only where the
/// records are equal and so is what follows them.
proof fn lemma_record_prefix(x: AccountView, y: AccountView, rx: Seq<u8>, ry: Seq<u8>)
    requires
        x.0.len() <= u64::MAX,
        y.0.len() <= u64::MAX,
        encode_record(x) + rx == encode_record(y) + ry,
    ensures
        x == y,
        rx == ry,
{
    lemma_auto_spec_u64_to_from_le_bytes();
    lemma_record_len(x);
    lemma_record_len(y);
    let b = encode_record(x) + rx;
    let lx = x.0.len() as u64;
    let ly = y.0.len() as u64;
    assert(b.subrange(0, 8) =~= spec_u64_to_le_bytes(lx));
    assert((encode_record(y) + ry).subrange(0, 8) =~= spec_u64_to_le_bytes(ly));
    assert(spec_u64_from_le_bytes(spec_u64_to_le_bytes(lx)) == lx);
    assert(spec_u64_from_le_bytes(spec_u64_to_le_bytes(ly)) == ly);
    assert(lx == ly);
    let l = x.0.len() as int;
    assert(b.subrange(8, 8 + l) =~= x.0);
    assert((encode_record(y) + ry).subrange(8, 8 + l) =~= y.0);
    assert(b.subrange(8 + l, 16 + l) =~= spec_u64_to_le_bytes(x.1));
    assert((encode_record(y) + ry).subrange(8 + l, 16 + l) =~= spec_u64_to_le_bytes(y.1));
    assert(spec_u64_from_le_bytes(spec_u64_to_le_bytes(x.1)) == x.1);
    assert(spec_u64_from_le_bytes(spec_u64_to_le_bytes(y.1)) == y.1);
    assert(b.subrange(16 + l, b.len() as int) =~= rx);
    assert((encode_record(y) + ry).subrange(16 + l, b.len() as int) =~= ry);
}

proof fn lemma_records_injective(s: Seq<AccountView>, t: Seq<AccountView>)
    requires
        valid_state(s),
        valid_state(t),
        s.len() == t.len(),
        encode_records(s) == encode_records(t),
    ensures
        s == t,
    decreases s.len(),
{
    if s.len() > 0 {
        assert(s =~= seq![s[0]] + s.skip(1));
        assert(t =~= seq![t[0]] + t.skip(1));
        lemma_records_split(seq![s[0]], s.skip(1));
        lemma_records_split(seq![t[0]], t.skip(1));
        lemma_records_push(Seq::<AccountView>::empty(), s[0]);
        lemma_records_push(Seq::<AccountView>::empty(), t[0]);
        assert(Seq::<AccountView>::empty().push(s[0]) =~= seq![s[0]]);
        assert(Seq::<AccountView>::empty().push(t[0]) =~= seq![t[0]]);
        assert(encode_records(seq![s[0]]) =~= encode_record(s[0]));
        assert(encode_records(seq![t[0]]) =~= encode_record(t[0]));
        assert(s[0].0.len() <= u64::MAX);
        assert(t[0].0.len() <= u64::MAX);
        lemma_record_prefix(s[0], t[0], encode_records(s.skip(1)), encode_records(t.skip(1)));
        assert forall|i: int| 0 <= i < s.skip(1).len() implies #[trigger] s.skip(1)[i].0.len()
            <= u64::MAX by {
            assert(s.skip(1)[i] == s[i + 1]);
        }
        assert forall|i: int| 0 <= i < t.skip(1).len() implies #[trigger] t.skip(1)[i].0.len()
            <= u64::MAX by {
            assert(t.skip(1)[i] == t[i + 1]);
        }
        assert forall|i: int, j: int|
            0 <= i < s.skip(1).len() && 0 <= j < s.skip(1).len() && i != j implies #[trigger] s.skip(
            1,
        )[i].0 != #[trigger] s.skip(1)[j].0 by {
            assert(s.skip(1)[i] == s[i + 1] && s.skip(1)[j] == s[j + 1]);
        }
        assert forall|i: int, j: int|
            0 <= i < t.skip(1).len() && 0 <= j < t.skip(1).len() && i != j implies #[trigger] t.skip(
            1,
        )[i].0 != #[trigger] t.skip(1)[j].0 by {
            assert(t.skip(1)[i] == t[i + 1] && t.skip(1)[j] == t[j + 1]);
        }
        lemma_records_injective(s.skip(1), t.skip(1));
    }
}

/// The snapshot of a ledger state is a snapshot, and of that state alone:
/// restoring it gives back exactly the state it was taken of.
pub proof fn lemma_restore_snapshot(s: Seq<AccountView>, t: Seq<AccountView>)
    requires
        valid_state(s),
    ensures
        is_snapshot(encode_ledger(s)),
        valid_state(t) && encode_ledger(t) == encode_ledger(s) ==> t == s,
{
    assert(valid_state(s) && encode_ledger(s) == encode_ledger(s));
    if valid_state(t) && encode_ledger(t) == encode_ledger(s) {
        lemma_auto_spec_u64_to_from_le_bytes();
        let b = encode_ledger(s);
        let hs = snapshot_header(s.len() as u64);
        let ht = snapshot_header(t.len() as u64);
        assert(b.subrange(1, 9) =~= spec_u64_to_le_bytes(s.len() as u64));
        assert(encode_ledger(t).subrange(1, 9) =~= spec_u64_to_le_bytes(t.len() as u64));
        assert(spec_u64_from_le_bytes(spec_u64_to_le_bytes(s.len() as u64)) == s.len() as u64);
        assert(spec_u64_from_le_bytes(spec_u64_to_le_bytes(t.len() as u64)) == t.len() as u64);
        assert(s.len() == t.len());
        assert(b.subrange(9, b.len() as int) =~= encode_records(s));
        assert(encode_ledger(t).subrange(9, b.len() as int) =~= encode_records(t));
        lemma_records_injective(s, t);
    }
}

impl Ledger {
    /// The whole table as bytes: the version byte, the number of records,
    /// then each record in the order of registration.
    pub fn snapshot(&self) -> (r: Vec<u8>)
        requires
            self.wf(),
        ensures
            r@ == encode_ledger(self@),
    {
        proof {
            lemma_auto_spec_u64_to_from_le_bytes();
        }
        let n = self.len();
        let mut out: Vec<u8> = Vec::new();
        out.push(SNAPSHOT_VERSION);
        let mut count = u64_to_le_bytes(n as u64);
        out.append(&mut count);
        assert(out@ =~= snapshot_header(n as u64));
        let mut i: usize = 0;
        while i < n
            invariant
                self.wf(),
                n == self@.len(),
                i <= n,
                out@ == snapshot_header(n as u64) + encode_records(self@.take(i as int)),
            decreases n - i,
        {
            let a = self.account_at(i);
            let ghost before = out@;
            let mut len_bytes = u64_to_le_bytes(a.identity.len() as u64);
            out.append(&mut len_bytes);
            let mut id_bytes = slice_to_vec(a.identity.as_bytes());
            out.append(&mut id_bytes);
            let mut balance_bytes = u64_to_le_bytes(a.balance);
            out.append(&mut balance_bytes);
            proof {
                assert(self@.take(i + 1) =~= self@.take(i as int).push(self@[i as int]));
                lemma_records_push(self@.take(i as int), self@[i as int]);
                assert(out@ =~= snapshot_header(n as u64) + encode_records(self@.take(i + 1)));
            }
            i = i + 1;
        }
        assert(self@.take(n as int) =~= self@);
        out
    }

    /// The ledger that `bytes` is a snapshot of. Fails with
    /// `CorruptSnapshot` exactly where `bytes` is the snapshot of no state a
    /// ledger can be in: empty input, a wrong version, a short or overlong
    /// record list, or an identity that appears twice.
    pub fn restore(bytes: &[u8]) -> (r: Result<Ledger, LedgerError>)
        ensures
            match r {
                Ok(l) => l.wf() && encode_ledger(l@) == bytes@,
                Err(e) => e == LedgerError::CorruptSnapshot && !is_snapshot(bytes@),
            },
    {
        proof {
            lemma_auto_spec_u64_to_from_le_bytes();
        }
        let ghost has = is_snapshot(bytes@);
        let ghost t = choose|t: Seq<AccountView>| valid_state(t) && #[trigger] encode_ledger(t) == bytes@;
        let n = bytes.len();
        if n < 9 {
            proof {
                if has {
                    assert(encode_ledger(t).len() >= 9);
                }
            }
            return Err(LedgerError::CorruptSnapshot);
        }
        if bytes[0] != SNAPSHOT_VERSION {
            proof {
                if has {
                    assert(encode_ledger(t)[0] == SNAPSHOT_VERSION);
                }
            }
            return Err(LedgerError::CorruptSnapshot);
        }
        let count = u64_from_le_bytes(slice_subrange(bytes, 1, 9));
        proof {
            assert(bytes@.subrange(0, 9) =~= snapshot_header(count));
            if has {
                assert(bytes@.subrange(1, 9) =~= spec_u64_to_le_bytes(t.len() as u64));
                assert(t.len() == count);
            }
        }
        let mut ledger = Ledger::new();
        let mut pos: usize = 9;
        let mut k: u64 = 0;
        while k < count
            invariant
                n == bytes@.len(),
                9 <= pos <= n,
                k <= count,
                ledger.wf(),
                ledger@.len() == k,
                bytes@.subrange(0, pos as int) == snapshot_header(count) + encode_records(ledger@),
                has == is_snapshot(bytes@),
                has ==> valid_state(t) && encode_ledger(t) == bytes@,
                has ==> t.len() == count && ledger@ == t.take(k as int),
            decreases count - k,
        {
            proof {
                lemma_auto_spec_u64_to_from_le_bytes();
                assert(spec_u64_to_le_bytes(count).len() == 8);
                assert(snapshot_header(count).len() == 9);
                assert(bytes@.subrange(0, pos as int).len() == pos);
                if has {
                    assert(encode_records(ledger@) == encode_records(t.take(k as int)));
                    assert(pos == 9 + encode_records(t.take(k as int)).len());
                    lemma_next_record(bytes@, t, k as int, pos as int);
                }
            }
            if n - pos < 8 {
                return Err(LedgerError::CorruptSnapshot);
            }
            let id_len = u64_from_le_bytes(slice_subrange(bytes, pos, pos + 8));
            if id_len > (n - pos - 8) as u64 {
                return Err(LedgerError::CorruptSnapshot);
            }
            let l = id_len as usize;
            if n - pos - 8 - l < 8 {
                return Err(LedgerError::CorruptSnapshot);
            }
            let id = Identity::from_bytes(slice_subrange(bytes, pos + 8, pos + 8 + l));
            let balance = u64_from_le_bytes(slice_subrange(bytes, pos + 8 + l, pos + 16 + l));
            let ghost rec: AccountView = (id@, balance);
            proof {
                let len_part = bytes@.subrange(pos as int, pos + 8);
                let balance_part = bytes@.subrange((pos + 8 + l) as int, pos + 16 + l);
                assert(spec_u64_to_le_bytes(spec_u64_from_le_bytes(len_part)) == len_part);
                assert(spec_u64_to_le_bytes(spec_u64_from_le_bytes(balance_part)) == balance_part);
                assert(id@.len() as u64 == id_len);
                assert(bytes@.subrange(pos as int, pos + 16 + l) =~= encode_record(rec));
                assert(bytes@.subrange(0, pos + 16 + l) =~= bytes@.subrange(0, pos as int) + bytes@.subrange(pos as int, pos + 16 + l));
                lemma_records_push(ledger@, rec);
                if has {
                    assert(rec == t[k as int]);
                    assert(!crate::ledger::has_account(ledger@, id@)) by {
                        if crate::ledger::has_account(ledger@, id@) {
                            let j = crate::ledger::position_of(ledger@, id@);
                            assert(t[j].0 == t[k as int].0);
                        }
                    }
                    assert(t.take(k + 1) =~= t.take(k as int).push(rec));
                }
            }
            match ledger.register(id, balance) {
                Ok(_) => {},
                Err(_) => {
                    return Err(LedgerError::CorruptSnapshot);
                },
            }
            pos = pos + 16 + l;
            k = k + 1;
        }
        if pos != n {
            proof {
                if has {
                    assert(t.take(k as int) =~= t);
                }
            }
            return Err(LedgerError::CorruptSnapshot);
        }
        proof {
            assert(bytes@.subrange(0, n as int) =~= bytes@);
        }
        Ok(ledger)
    }
}

} // verus!
