//! LEB128 integers, the variable-length numbers of the wasm binary format.
//!
//! Only the canonical (shortest) encoding of each number is produced, and only
//! the canonical encoding is accepted when reading, so that a module read by
//! the codec writes back byte-identically.

use vstd::prelude::*;
use crate::DecodeError;

verus! {

/// The canonical unsigned LEB128 encoding of `v`.
pub open spec fn enc_u32(v: nat) -> Seq<u8>
    decreases v,
{
    if v < 128 {
        seq![v as u8]
    } else {
        seq![(128 + (v % 128)) as u8] + enc_u32(v / 128)
    }
}

/// The canonical signed LEB128 encoding of `v`.
pub open spec fn enc_s64(v: int) -> Seq<u8>
    decreases (if v >= 0 { v } else { -1 - v }),
{
    let low = v % 128;
    let rest = (v - low) / 128;
    if (rest == 0 && low < 64) || (rest == -1 && low >= 64) {
        seq![low as u8]
    } else {
        seq![(low + 128) as u8] + enc_s64(rest)
    }
}

/// Append the canonical unsigned LEB128 encoding of `v` to `out`.
pub fn encode_u32(v: u32, out: &mut Vec<u8>)
    ensures
        final(out)@ == old(out)@ + enc_u32(v as nat),
{
    let mut x: u32 = v;
    let ghost taken: Seq<u8> = Seq::<u8>::empty();
    while x >= 128
        invariant
            out@ == old(out)@ + taken,
            enc_u32(v as nat) == taken + enc_u32(x as nat),
        decreases x,
    {
        let b: u8 = (x % 128) as u8 + 128;
        assert(enc_u32(x as nat) == seq![b] + enc_u32((x / 128) as nat));
        out.push(b);
        proof {
            taken = taken + seq![b];
            assert(enc_u32(v as nat) == taken + enc_u32((x / 128) as nat));
        }
        x = x / 128;
    }
    out.push(x as u8);
    proof {
        assert(enc_u32(x as nat) == seq![x as u8]);
        assert(out@ == old(out)@ + (taken + seq![x as u8]));
    }
}

/// Read a canonical unsigned LEB128 number at `pos`.
///
/// On success the returned byte count delimits exactly the canonical encoding
/// of the returned value.
pub fn decode_u32(bytes: &[u8], pos: usize) -> (r: Result<(u32, usize), DecodeError>)
    requires
        pos <= bytes@.len(),
    ensures
        match r {
            Ok((v, n)) => {
                &&& 1 <= n
                &&& pos + n <= bytes@.len()
                &&& enc_u32(v as nat) == bytes@.subrange(pos as int, pos + n)
            },
            Err(_) => forall|v: u32, n: int|
                #![trigger enc_u32(v as nat), bytes@.subrange(pos as int, pos + n)]
                0 <= n && pos + n <= bytes@.len() ==> enc_u32(v as nat) != bytes@.subrange(
                    pos as int,
                    pos + n,
                ),
        },
    decreases bytes@.len() - pos,
{
    if pos >= bytes.len() {
        proof {
            assert forall|v: u32, n: int|
                #![trigger enc_u32(v as nat), bytes@.subrange(pos as int, pos + n)]
                0 <= n && pos + n <= bytes@.len() implies enc_u32(v as nat) != bytes@.subrange(
                pos as int,
                pos + n,
            ) by {
                if enc_u32(v as nat) == bytes@.subrange(pos as int, pos + n) {
                    assert(enc_u32(v as nat).len() >= 1) by {
                        if v < 128 {
                        }
                    };
                }
            }
        }
        return Err(DecodeError::UnexpectedEnd);
    }
    let b: u8 = bytes[pos];
    if b < 128 {
        proof {
            assert(enc_u32(b as nat) == seq![b]);
            assert(bytes@.subrange(pos as int, pos + 1) =~= seq![b]);
        }
        Ok((b as u32, 1))
    } else {
        let (rest, m) = match decode_u32(bytes, pos + 1) {
            Ok(p) => p,
            Err(e) => {
                proof {
                    assert forall|v: u32, n: int|
                        #![trigger enc_u32(v as nat), bytes@.subrange(pos as int, pos + n)]
                        0 <= n && pos + n <= bytes@.len() implies enc_u32(v as nat)
                        != bytes@.subrange(pos as int, pos + n) by {
                        if enc_u32(v as nat) == bytes@.subrange(pos as int, pos + n) {
                            if v < 128 {
                                assert(enc_u32(v as nat) == seq![v as u8]);
                                assert(bytes@.subrange(pos as int, pos + n)[0] == b);
                            } else {
                                lemma_enc_u32_tail(bytes@, pos as int, v as nat, n);
                                assert(enc_u32((v / 128) as nat) == bytes@.subrange(
                                    pos as int + 1,
                                    pos as int + 1 + (n - 1),
                                ));
                            }
                        }
                    }
                }
                return Err(e);
            },
        };
        if rest == 0 {
            proof {
                assert forall|v: u32, n: int|
                    #![trigger enc_u32(v as nat), bytes@.subrange(pos as int, pos + n)]
                    0 <= n && pos + n <= bytes@.len() implies enc_u32(v as nat)
                    != bytes@.subrange(pos as int, pos + n) by {
                    if enc_u32(v as nat) == bytes@.subrange(pos as int, pos + n) {
                        if v < 128 {
                            assert(enc_u32(v as nat) == seq![v as u8]);
                            assert(bytes@.subrange(pos as int, pos + n)[0] == b);
                        } else {
                            lemma_enc_u32_tail(bytes@, pos as int, v as nat, n);
                            lemma_enc_u32_det(
                                bytes@,
                                pos as int + 1,
                                (v as nat) / 128,
                                0,
                                n - 1,
                                m as int,
                            );
                            assert(v as nat == 128 * ((v as nat) / 128) + (v as nat) % 128);
                        }
                    }
                }
            }
            return Err(DecodeError::NonCanonical);
        }
        if rest > (u32::MAX - 127) / 128 {
            proof {
                assert forall|v: u32, n: int|
                    #![trigger enc_u32(v as nat), bytes@.subrange(pos as int, pos + n)]
                    0 <= n && pos + n <= bytes@.len() implies enc_u32(v as nat)
                    != bytes@.subrange(pos as int, pos + n) by {
                    if enc_u32(v as nat) == bytes@.subrange(pos as int, pos + n) {
                        if v < 128 {
                            assert(enc_u32(v as nat) == seq![v as u8]);
                            assert(bytes@.subrange(pos as int, pos + n)[0] == b);
                        } else {
                            lemma_enc_u32_tail(bytes@, pos as int, v as nat, n);
                            lemma_enc_u32_det(
                                bytes@,
                                pos as int + 1,
                                (v as nat) / 128,
                                rest as nat,
                                n - 1,
                                m as int,
                            );
                            assert(v as nat >= 128 * (rest as nat)) by (nonlinear_arith)
                                requires
                                    (v as nat) / 128 == rest as nat;
                            assert(128 * (rest as nat) > u32::MAX as nat) by (nonlinear_arith)
                                requires
                                    rest as nat >= 33554432;
                        }
                    }
                }
            }
            return Err(DecodeError::IntegerTooLarge);
        }
        let v: u32 = rest * 128 + (b - 128) as u32;
        proof {
            assert(v as nat >= 128);
            assert((v as nat) % 128 == (b - 128) as nat && (v as nat) / 128 == rest as nat) by (nonlinear_arith)
                requires
                    v as nat == rest as nat * 128 + (b - 128) as nat,
                    ((b - 128) as nat) < 128;
            assert(enc_u32(v as nat) == seq![b] + enc_u32(rest as nat));
            assert(bytes@.subrange(pos as int, pos + 1 + m as int)
                =~= seq![b] + bytes@.subrange(pos + 1, pos + 1 + m as int));
        }
        Ok((v, m + 1))
    }
}

/// Euclidean quotient and remainder of `v` by 128, computed without signed
/// division.
fn divmod_128(v: i64) -> (r: (i64, u8))
    ensures
        r.0 == (v as int - (v as int) % 128) / 128,
        r.1 == (v as int) % 128,
{
    if v >= 0 {
        let u: u64 = v as u64;
        let q: u64 = u / 128;
        let m: u64 = u % 128;
        (q as i64, m as u8)
    } else {
        // v == -(neg + 1); if neg == 128*nq + nr then
        // v == 128*(-(nq + 1)) + (127 - nr).
        let neg: u64 = (-(v + 1)) as u64;
        let nq: u64 = neg / 128;
        let nr: u64 = neg % 128;
        let q: i64 = -((nq as i64) + 1);
        let m: u8 = (127 - nr) as u8;
        proof {
            assert(v as int == 128 * (q as int) + (m as int)) by (nonlinear_arith)
                requires
                    neg as int == 128 * (nq as int) + (nr as int),
                    v as int == -(neg as int) - 1,
                    q as int == -((nq as int) + 1),
                    m as int == 127 - (nr as int);
            assert((v as int) % 128 == m as int && (v as int - (v as int) % 128) / 128 == q as int)
                by (nonlinear_arith)
                requires
                    v as int == 128 * (q as int) + (m as int),
                    0 <= m as int && (m as int) < 128;
        }
        (q, m)
    }
}

/// Append the canonical signed LEB128 encoding of `v` to `out`.
pub fn encode_s64(v: i64, out: &mut Vec<u8>)
    ensures
        final(out)@ == old(out)@ + enc_s64(v as int),
{
    let mut x: i64 = v;
    let ghost taken: Seq<u8> = Seq::<u8>::empty();
    loop
        invariant
            out@ == old(out)@ + taken,
            enc_s64(v as int) == taken + enc_s64(x as int),
        decreases (if x >= 0 { x as int } else { -1 - x as int }),
    {
        let (rest, low) = divmod_128(x);
        if (rest == 0 && low < 64) || (rest == -1 && low >= 64) {
            assert(enc_s64(x as int) == seq![low]);
            out.push(low);
            proof {
                assert(out@ == old(out)@ + (taken + seq![low]));
            }
            return;
        } else {
            let b: u8 = low + 128;
            assert(enc_s64(x as int) == seq![b] + enc_s64(rest as int));
            out.push(b);
            proof {
                taken = taken + seq![b];
                assert(x as int == 128 * (rest as int) + (low as int)) by {
                    assert((x as int - (x as int) % 128) / 128 * 128 == x as int - (x as int) % 128)
                        by (nonlinear_arith);
                };
                assert((if rest >= 0 { rest as int } else { -1 - rest as int })
                    < (if x >= 0 { x as int } else { -1 - x as int })) by (nonlinear_arith)
                    requires
                        x as int == 128 * (rest as int) + (low as int),
                        0 <= low as int && (low as int) < 128,
                        !((rest == 0 && low < 64) || (rest == -1 && low >= 64));
            }
            x = rest;
        }
    }
}

/// Read a canonical signed LEB128 number at `pos`.
pub fn decode_s64(bytes: &[u8], pos: usize) -> (r: Result<(i64, usize), DecodeError>)
    requires
        pos <= bytes@.len(),
    ensures
        match r {
            Ok((v, n)) => {
                &&& 1 <= n
                &&& pos + n <= bytes@.len()
                &&& enc_s64(v as int) == bytes@.subrange(pos as int, pos + n)
            },
            Err(_) => forall|v: i64, n: int|
                #![trigger enc_s64(v as int), bytes@.subrange(pos as int, pos + n)]
                0 <= n && pos + n <= bytes@.len() ==> enc_s64(v as int) != bytes@.subrange(
                    pos as int,
                    pos + n,
                ),
        },
    decreases bytes@.len() - pos,
{
    if pos >= bytes.len() {
        proof {
            assert forall|v: i64, n: int|
                #![trigger enc_s64(v as int), bytes@.subrange(pos as int, pos + n)]
                0 <= n && pos + n <= bytes@.len() implies enc_s64(v as int) != bytes@.subrange(
                pos as int,
                pos + n,
            ) by {
                if enc_s64(v as int) == bytes@.subrange(pos as int, pos + n) {
                    assert(enc_s64(v as int).len() >= 1) by {
                        let lv = (v as int) % 128;
                        let rv = ((v as int) - lv) / 128;
                        if (rv == 0 && lv < 64) || (rv == -1 && lv >= 64) {
                        }
                    };
                }
            }
        }
        return Err(DecodeError::UnexpectedEnd);
    }
    let b: u8 = bytes[pos];
    if b < 128 {
        let v: i64 = if b < 64 {
            b as i64
        } else {
            (b as i64) - 128
        };
        proof {
            assert((v as int) % 128 == b as int && (v as int - (v as int) % 128) / 128
                == (if b < 64 { 0int } else { -1int })) by (nonlinear_arith)
                requires
                    v as int == (if b < 64 { b as int } else { b as int - 128 }),
                    0 <= b && b < 128;
            assert(enc_s64(v as int) == seq![b]);
            assert(bytes@.subrange(pos as int, pos + 1) =~= seq![b]);
        }
        Ok((v, 1))
    } else {
        let (rest, m) = match decode_s64(bytes, pos + 1) {
            Ok(p) => p,
            Err(e) => {
                proof {
                    assert forall|v: i64, n: int|
                        #![trigger enc_s64(v as int), bytes@.subrange(pos as int, pos + n)]
                        0 <= n && pos + n <= bytes@.len() implies enc_s64(v as int)
                        != bytes@.subrange(pos as int, pos + n) by {
                        if enc_s64(v as int) == bytes@.subrange(pos as int, pos + n) {
                            let lv = (v as int) % 128;
                            let rv = ((v as int) - lv) / 128;
                            if (rv == 0 && lv < 64) || (rv == -1 && lv >= 64) {
                                assert(enc_s64(v as int) == seq![lv as u8]);
                                assert(bytes@.subrange(pos as int, pos + n)[0] == b);
                            } else {
                                lemma_enc_s64_tail(bytes@, pos as int, v as int, n);
                                assert(enc_s64(rv) == bytes@.subrange(
                                    pos as int + 1,
                                    pos as int + 1 + (n - 1),
                                ));
                            }
                        }
                    }
                }
                return Err(e);
            },
        };
        let low: u8 = b - 128;
        if (rest == 0 && low < 64) || (rest == -1 && low >= 64) {
            proof {
                assert forall|v: i64, n: int|
                    #![trigger enc_s64(v as int), bytes@.subrange(pos as int, pos + n)]
                    0 <= n && pos + n <= bytes@.len() implies enc_s64(v as int)
                    != bytes@.subrange(pos as int, pos + n) by {
                    if enc_s64(v as int) == bytes@.subrange(pos as int, pos + n) {
                        let lv = (v as int) % 128;
                        let rv = ((v as int) - lv) / 128;
                        if (rv == 0 && lv < 64) || (rv == -1 && lv >= 64) {
                            assert(enc_s64(v as int) == seq![lv as u8]);
                            assert(bytes@.subrange(pos as int, pos + n)[0] == b);
                        } else {
                            lemma_enc_s64_tail(bytes@, pos as int, v as int, n);
                            lemma_enc_s64_det(
                                bytes@,
                                pos as int + 1,
                                rv,
                                rest as int,
                                n - 1,
                                m as int,
                            );
                            assert(lv == b - 128);
                        }
                    }
                }
            }
            return Err(DecodeError::NonCanonical);
        }
        if rest > (i64::MAX - 127) / 128 || rest < i64::MIN / 128 {
            proof {
                assert forall|v: i64, n: int|
                    #![trigger enc_s64(v as int), bytes@.subrange(pos as int, pos + n)]
                    0 <= n && pos + n <= bytes@.len() implies enc_s64(v as int)
                    != bytes@.subrange(pos as int, pos + n) by {
                    if enc_s64(v as int) == bytes@.subrange(pos as int, pos + n) {
                        let lv = (v as int) % 128;
                        let rv = ((v as int) - lv) / 128;
                        if (rv == 0 && lv < 64) || (rv == -1 && lv >= 64) {
                            assert(enc_s64(v as int) == seq![lv as u8]);
                            assert(bytes@.subrange(pos as int, pos + n)[0] == b);
                        } else {
                            lemma_enc_s64_tail(bytes@, pos as int, v as int, n);
                            lemma_enc_s64_det(
                                bytes@,
                                pos as int + 1,
                                rv,
                                rest as int,
                                n - 1,
                                m as int,
                            );
                            assert(v as int == 128 * rv + lv) by (nonlinear_arith)
                                requires
                                    lv == (v as int) % 128,
                                    rv == ((v as int) - lv) / 128;
                            if rest as int > (i64::MAX - 127) as int / 128 {
                                assert(128 * rv > i64::MAX - 127) by (nonlinear_arith)
                                    requires
                                        rv >= 72057594037927936int;
                            } else {
                                assert(128 * rv + 127 < i64::MIN as int) by (nonlinear_arith)
                                    requires
                                        rv <= -72057594037927937int;
                            }
                        }
                    }
                }
            }
            return Err(DecodeError::IntegerTooLarge);
        }
        let v: i64 = rest * 128 + low as i64;
        proof {
            assert((v as int) % 128 == low as int && (v as int - (v as int) % 128) / 128
                == rest as int) by (nonlinear_arith)
                requires
                    v as int == 128 * (rest as int) + (low as int),
                    0 <= low as int && (low as int) < 128;
            assert(enc_s64(v as int) == seq![b] + enc_s64(rest as int));
            assert(bytes@.subrange(pos as int, pos + 1 + m as int)
                =~= seq![b] + bytes@.subrange(pos + 1, pos + 1 + m as int));
        }
        Ok((v, m + 1))
    }
}


/// A byte string determines the unsigned number it encodes and the length
/// of the encoding: canonical encodings never share a prefix position.
pub proof fn lemma_enc_u32_det(bytes: Seq<u8>, p: int, a: nat, b: nat, n1: int, n2: int)
    requires
        0 <= p,
        0 <= n1,
        0 <= n2,
        p + n1 <= bytes.len(),
        p + n2 <= bytes.len(),
        enc_u32(a) == bytes.subrange(p, p + n1),
        enc_u32(b) == bytes.subrange(p, p + n2),
    ensures
        a == b,
        n1 == n2,
    decreases n1,
{
    assert(enc_u32(a).len() == n1);
    assert(enc_u32(b).len() == n2);
    assert(n1 >= 1 && n2 >= 1);
    let fb = bytes[p];
    assert(enc_u32(a)[0] == fb && enc_u32(b)[0] == fb);
    if a < 128 {
        assert(enc_u32(a) == seq![a as u8]);
        assert(fb == a as u8);
        if b >= 128 {
            assert(enc_u32(b)[0] == (128 + (b % 128)) as u8);
            assert(fb >= 128);
        }
        assert(b < 128);
        assert(enc_u32(b) == seq![b as u8]);
        assert(a == b && n1 == 1 && n2 == 1);
    } else {
        assert(enc_u32(a) == seq![(128 + (a % 128)) as u8] + enc_u32(a / 128));
        assert(fb >= 128);
        if b < 128 {
            assert(enc_u32(b) == seq![b as u8]);
            assert(fb < 128);
        }
        assert(b >= 128);
        assert(enc_u32(b) == seq![(128 + (b % 128)) as u8] + enc_u32(b / 128));
        assert(a % 128 == fb - 128 && b % 128 == fb - 128);
        assert(enc_u32(a / 128) =~= bytes.subrange(p + 1, p + n1)) by {
            assert forall|i: int| 0 <= i < enc_u32(a / 128).len() implies #[trigger] enc_u32(
                a / 128,
            )[i] == bytes.subrange(p + 1, p + n1)[i] by {
                assert(enc_u32(a / 128)[i] == bytes.subrange(p, p + n1)[i + 1]);
            }
        };
        assert(enc_u32(b / 128) =~= bytes.subrange(p + 1, p + n2)) by {
            assert forall|i: int| 0 <= i < enc_u32(b / 128).len() implies #[trigger] enc_u32(
                b / 128,
            )[i] == bytes.subrange(p + 1, p + n2)[i] by {
                assert(enc_u32(b / 128)[i] == bytes.subrange(p, p + n2)[i + 1]);
            }
        };
        lemma_enc_u32_det(bytes, p + 1, a / 128, b / 128, n1 - 1, n2 - 1);
        assert(a == 128 * (a / 128) + a % 128);
        assert(b == 128 * (b / 128) + b % 128);
    }
}

/// A byte string determines the signed number it encodes and the length of
/// the encoding.
pub proof fn lemma_enc_s64_det(bytes: Seq<u8>, p: int, a: int, b: int, n1: int, n2: int)
    requires
        0 <= p,
        0 <= n1,
        0 <= n2,
        p + n1 <= bytes.len(),
        p + n2 <= bytes.len(),
        enc_s64(a) == bytes.subrange(p, p + n1),
        enc_s64(b) == bytes.subrange(p, p + n2),
    ensures
        a == b,
        n1 == n2,
    decreases n1,
{
    assert(enc_s64(a).len() == n1);
    assert(enc_s64(b).len() == n2);
    assert(n1 >= 1 && n2 >= 1);
    let fb = bytes[p];
    assert(enc_s64(a)[0] == fb && enc_s64(b)[0] == fb);
    let la = a % 128;
    let ra = (a - la) / 128;
    let lb = b % 128;
    let rb = (b - lb) / 128;
    let stop_a = (ra == 0 && la < 64) || (ra == -1 && la >= 64);
    let stop_b = (rb == 0 && lb < 64) || (rb == -1 && lb >= 64);
    if stop_a {
        assert(enc_s64(a) == seq![la as u8]);
        assert(fb == la as u8 && fb < 128);
        if !stop_b {
            assert(enc_s64(b) == seq![(lb + 128) as u8] + enc_s64(rb));
            assert(fb == (lb + 128) as u8 && fb >= 128);
        }
        assert(stop_b);
        assert(enc_s64(b) == seq![lb as u8]);
        assert(la == lb);
        assert(a == 128 * ra + la && b == 128 * rb + lb) by {
            assert((a - la) / 128 * 128 == a - la) by (nonlinear_arith)
                requires
                    la == a % 128;
            assert((b - lb) / 128 * 128 == b - lb) by (nonlinear_arith)
                requires
                    lb == b % 128;
        };
        assert(ra == rb) by {
            if la < 64 {
                assert(ra == 0 && rb == 0);
            } else {
                assert(ra == -1 && rb == -1);
            }
        };
        assert(a == b && n1 == 1 && n2 == 1);
    } else {
        assert(enc_s64(a) == seq![(la + 128) as u8] + enc_s64(ra));
        assert(fb == (la + 128) as u8 && fb >= 128);
        if stop_b {
            assert(enc_s64(b) == seq![lb as u8]);
            assert(fb < 128);
        }
        assert(!stop_b);
        assert(enc_s64(b) == seq![(lb + 128) as u8] + enc_s64(rb));
        assert(la == lb);
        assert(enc_s64(ra) =~= bytes.subrange(p + 1, p + n1)) by {
            assert forall|i: int| 0 <= i < enc_s64(ra).len() implies #[trigger] enc_s64(ra)[i]
                == bytes.subrange(p + 1, p + n1)[i] by {
                assert(enc_s64(ra)[i] == bytes.subrange(p, p + n1)[i + 1]);
            }
        };
        assert(enc_s64(rb) =~= bytes.subrange(p + 1, p + n2)) by {
            assert forall|i: int| 0 <= i < enc_s64(rb).len() implies #[trigger] enc_s64(rb)[i]
                == bytes.subrange(p + 1, p + n2)[i] by {
                assert(enc_s64(rb)[i] == bytes.subrange(p, p + n2)[i + 1]);
            }
        };
        lemma_enc_s64_det(bytes, p + 1, ra, rb, n1 - 1, n2 - 1);
        assert(a == 128 * ra + la && b == 128 * rb + lb) by {
            assert((a - la) / 128 * 128 == a - la) by (nonlinear_arith)
                requires
                    la == a % 128;
            assert((b - lb) / 128 * 128 == b - lb) by (nonlinear_arith)
                requires
                    lb == b % 128;
        };
    }
}

/// The tail of a multi-byte unsigned encoding sits right after its first
/// byte.
pub proof fn lemma_enc_u32_tail(bytes: Seq<u8>, p: int, v: nat, n: int)
    requires
        0 <= p,
        0 <= n,
        p + n <= bytes.len(),
        v >= 128,
        enc_u32(v) == bytes.subrange(p, p + n),
    ensures
        enc_u32(v / 128) == bytes.subrange(p + 1, p + n),
        bytes[p] == (128 + (v % 128)) as u8,
        n >= 2,
{
    assert(enc_u32(v) == seq![(128 + (v % 128)) as u8] + enc_u32(v / 128));
    assert(enc_u32(v).len() == n);
    assert(bytes[p] == bytes.subrange(p, p + n)[0]);
    assert(enc_u32(v)[0] == (128 + (v % 128)) as u8);
    assert(enc_u32(v / 128).len() >= 1) by {
        if v / 128 < 128 {
        }
    };
    assert(enc_u32(v / 128) =~= bytes.subrange(p + 1, p + n)) by {
        assert forall|i: int| 0 <= i < enc_u32(v / 128).len() implies #[trigger] enc_u32(
            v / 128,
        )[i] == bytes.subrange(p + 1, p + n)[i] by {
            assert(enc_u32(v / 128)[i] == bytes.subrange(p, p + n)[i + 1]);
        }
    };
}

/// The tail of a multi-byte signed encoding sits right after its first byte.
pub proof fn lemma_enc_s64_tail(bytes: Seq<u8>, p: int, v: int, n: int)
    requires
        0 <= p,
        0 <= n,
        p + n <= bytes.len(),
        !(((v - v % 128) / 128 == 0 && v % 128 < 64) || ((v - v % 128) / 128 == -1 && v % 128
            >= 64)),
        enc_s64(v) == bytes.subrange(p, p + n),
    ensures
        enc_s64((v - v % 128) / 128) == bytes.subrange(p + 1, p + n),
        bytes[p] == (v % 128 + 128) as u8,
        n >= 2,
{
    let low = v % 128;
    let rest = (v - low) / 128;
    assert(enc_s64(v) == seq![(low + 128) as u8] + enc_s64(rest));
    assert(enc_s64(v).len() == n);
    assert(bytes[p] == bytes.subrange(p, p + n)[0]);
    assert(enc_s64(v)[0] == (low + 128) as u8);
    assert(enc_s64(rest).len() >= 1) by {
        let l2 = rest % 128;
        let r2 = (rest - l2) / 128;
        if (r2 == 0 && l2 < 64) || (r2 == -1 && l2 >= 64) {
        }
    };
    assert(enc_s64(rest) =~= bytes.subrange(p + 1, p + n)) by {
        assert forall|i: int| 0 <= i < enc_s64(rest).len() implies #[trigger] enc_s64(rest)[i]
            == bytes.subrange(p + 1, p + n)[i] by {
            assert(enc_s64(rest)[i] == bytes.subrange(p, p + n)[i + 1]);
        }
    };
}

} // verus!


