use vstd::bytes::{
    lemma_auto_spec_u64_to_from_le_bytes, spec_u64_from_le_bytes, spec_u64_to_le_bytes,
    u64_from_le_bytes, u64_to_le_bytes,
};
use vstd::prelude::*;

verus! {

/// The eight little-endian bytes of `x`.
pub open spec fn le64(x: u64) -> Seq<u8> {
    spec_u64_to_le_bytes(x)
}

/// Whether `x` stands in `b` from position `p`.
pub open spec fn at(b: Seq<u8>, p: int, x: Seq<u8>) -> bool {
    0 <= p && p + x.len() <= b.len() && b.subrange(p, p + x.len()) == x
}

/// A little-endian `u64` read at `p`, and the position after it.
pub open spec fn dec_u64(b: Seq<u8>, p: int) -> Option<(u64, int)> {
    if 0 <= p && p + 8 <= b.len() {
        Some((spec_u64_from_le_bytes(b.subrange(p, p + 8)), p + 8))
    } else {
        None
    }
}

/// A byte string: its length, then its bytes.
pub open spec fn enc_bytes(x: Seq<u8>) -> Seq<u8> {
    le64(x.len() as u64) + x
}

pub open spec fn dec_bytes(b: Seq<u8>, p: int) -> Option<(Seq<u8>, int)> {
    match dec_u64(b, p) {
        None => None,
        Some((n, q)) => if q + n <= b.len() {
            Some((b.subrange(q, q + n), q + n))
        } else {
            None
        },
    }
}

/// The encodings of the items of `s`, one after another.
pub open spec fn concat<T>(s: Seq<T>, f: spec_fn(T) -> Seq<u8>) -> Seq<u8>
    decreases s.len(),
{
    if s.len() == 0 {
        Seq::empty()
    } else {
        concat(s.drop_last(), f) + f(s.last())
    }
}

/// A list: its length, then its items.
pub open spec fn enc_list<T>(s: Seq<T>, f: spec_fn(T) -> Seq<u8>) -> Seq<u8> {
    le64(s.len() as u64) + concat(s, f)
}

/// `n` items read one after another from `p` with `g`.
pub open spec fn dec_items<T>(
    b: Seq<u8>,
    p: int,
    n: nat,
    g: spec_fn(Seq<u8>, int) -> Option<(T, int)>,
) -> Option<(Seq<T>, int)>
    decreases n,
{
    if n == 0 {
        Some((Seq::empty(), p))
    } else {
        match dec_items(b, p, (n - 1) as nat, g) {
            None => None,
            Some((s, q)) => match g(b, q) {
                None => None,
                Some((x, r)) => Some((s.push(x), r)),
            },
        }
    }
}

/// A list read at `p`: a count, then that many items.
pub open spec fn dec_list<T>(b: Seq<u8>, p: int, g: spec_fn(Seq<u8>, int) -> Option<(T, int)>) -> Option<
    (Seq<T>, int),
> {
    match dec_u64(b, p) {
        None => None,
        Some((n, q)) => dec_items(b, q, n as nat, g),
    }
}

/// Whether `g` reads back every item that `f` writes.
pub open spec fn reads_back<T>(
    f: spec_fn(T) -> Seq<u8>,
    g: spec_fn(Seq<u8>, int) -> Option<(T, int)>,
    ok: spec_fn(T) -> bool,
) -> bool {
    forall|b: Seq<u8>, q: int, x: T|
        ok(x) && #[trigger] at(b, q, f(x)) ==> g(b, q) == Some((x, q + f(x).len()))
}

pub proof fn lemma_at_split(b: Seq<u8>, p: int, x: Seq<u8>, y: Seq<u8>)
    requires
        at(b, p, x + y),
    ensures
        at(b, p, x),
        at(b, p + x.len(), y),
{
    let w = b.subrange(p, p + x.len() + y.len());
    assert(w == x + y);
    assert(b.subrange(p, p + x.len()) =~= w.subrange(0, x.len() as int));
    assert(w.subrange(0, x.len() as int) =~= x);
    assert(b.subrange(p + x.len(), p + x.len() + y.len()) =~= w.subrange(
        x.len() as int,
        w.len() as int,
    ));
    assert(w.subrange(x.len() as int, w.len() as int) =~= y);
}

pub proof fn lemma_dec_u64(b: Seq<u8>, p: int, v: u64)
    requires
        at(b, p, le64(v)),
    ensures
        le64(v).len() == 8,
        dec_u64(b, p) == Some((v, p + 8)),
{
    lemma_auto_spec_u64_to_from_le_bytes();
}

pub proof fn lemma_dec_bytes(b: Seq<u8>, p: int, x: Seq<u8>)
    requires
        x.len() <= u64::MAX,
        at(b, p, enc_bytes(x)),
    ensures
        enc_bytes(x).len() == 8 + x.len(),
        dec_bytes(b, p) == Some((x, p + 8 + x.len())),
{
    lemma_at_split(b, p, le64(x.len() as u64), x);
    lemma_dec_u64(b, p, x.len() as u64);
}

pub proof fn lemma_dec_items<T>(
    b: Seq<u8>,
    p: int,
    s: Seq<T>,
    f: spec_fn(T) -> Seq<u8>,
    g: spec_fn(Seq<u8>, int) -> Option<(T, int)>,
    ok: spec_fn(T) -> bool,
)
    requires
        reads_back(f, g, ok),
        forall|i: int| 0 <= i < s.len() ==> ok(#[trigger] s[i]),
        at(b, p, concat(s, f)),
    ensures
        dec_items(b, p, s.len(), g) == Some((s, p + concat(s, f).len())),
    decreases s.len(),
{
    if s.len() > 0 {
        let init = s.drop_last();
        lemma_at_split(b, p, concat(init, f), f(s.last()));
        lemma_dec_items(b, p, init, f, g, ok);
        assert(ok(s[s.len() - 1]));
        assert(init.push(s.last()) =~= s);
    }
}

pub proof fn lemma_dec_list<T>(
    b: Seq<u8>,
    p: int,
    s: Seq<T>,
    f: spec_fn(T) -> Seq<u8>,
    g: spec_fn(Seq<u8>, int) -> Option<(T, int)>,
    ok: spec_fn(T) -> bool,
)
    requires
        s.len() <= u64::MAX,
        reads_back(f, g, ok),
        forall|i: int| 0 <= i < s.len() ==> ok(#[trigger] s[i]),
        at(b, p, enc_list(s, f)),
    ensures
        enc_list(s, f).len() == 8 + concat(s, f).len(),
        dec_list(b, p, g) == Some((s, p + enc_list(s, f).len())),
{
    lemma_at_split(b, p, le64(s.len() as u64), concat(s, f));
    lemma_dec_u64(b, p, s.len() as u64);
    lemma_dec_items(b, p + 8, s, f, g, ok);
}

/// Reads a little-endian `u64` at `p`.
pub fn read_u64(b: &[u8], p: usize) -> (r: Option<(u64, usize)>)
    ensures
        (match r {
            None => dec_u64(b@, p as int) is None,
            Some((v, q)) => dec_u64(b@, p as int) == Some((v, q as int)),
        }),
{
    if p > b.len() || b.len() - p < 8 {
        return None;
    }
    let v = u64_from_le_bytes(&b[p..p + 8]);
    Some((v, p + 8))
}

/// Reads a byte string at `p`.
pub fn read_bytes(b: &[u8], p: usize) -> (r: Option<(Vec<u8>, usize)>)
    ensures
        (match r {
            None => dec_bytes(b@, p as int) is None,
            Some((v, q)) => dec_bytes(b@, p as int) == Some((v@, q as int)),
        }),
{
    match read_u64(b, p) {
        None => None,
        Some((n, q)) => {
            if n > (b.len() - q) as u64 {
                return None;
            }
            let end = q + n as usize;
            Some((crate::bytes::to_vec(&b[q..end]), end))
        },
    }
}

/// Appends `x` as eight little-endian bytes.
pub fn write_u64(out: &mut Vec<u8>, x: u64)
    ensures
        final(out)@ == old(out)@ + le64(x),
{
    let mut bytes = u64_to_le_bytes(x);
    out.append(&mut bytes);
}

/// Appends a byte string: its length, then its bytes.
pub fn write_bytes(out: &mut Vec<u8>, x: &[u8])
    ensures
        final(out)@ == old(out)@ + enc_bytes(x@),
{
    write_u64(out, x.len() as u64);
    let ghost mid = out@;
    let mut i: usize = 0;
    while i < x.len()
        invariant
            i <= x@.len(),
            out@ == mid + x@.subrange(0, i as int),
        decreases x@.len() - i,
    {
        out.push(x[i]);
        i = i + 1;
        assert(out@ =~= mid + x@.subrange(0, i as int));
    }
    assert(x@.subrange(0, x@.len() as int) =~= x@);
    assert(out@ =~= old(out)@ + enc_bytes(x@));
}

} // verus!

verus! {

pub proof fn lemma_items_none<T>(
    b: Seq<u8>,
    p: int,
    m: nat,
    n: nat,
    g: spec_fn(Seq<u8>, int) -> Option<(T, int)>,
)
    requires
        m <= n,
        dec_items(b, p, m, g) is None,
    ensures
        dec_items(b, p, n, g) is None,
    decreases n,
{
    if m < n {
        lemma_items_none(b, p, m, (n - 1) as nat, g);
    }
}

} // verus!
