//! SCALE wire-format primitives: little-endian integers and compact
//! length prefixes, with a strict (canonical-only) parser.

use vstd::prelude::*;

verus! {

/// 256 to the power `l`.
pub open spec fn pow256(l: nat) -> int
    decreases l,
{
    if l == 0 {
        1
    } else {
        256 * pow256((l - 1) as nat)
    }
}

/// The `l` low-order bytes of `n`, least significant first.
pub open spec fn le_bytes(n: int, l: nat) -> Seq<u8>
    decreases l,
{
    if l == 0 {
        seq![]
    } else {
        seq![(n % 256) as u8] + le_bytes(n / 256, (l - 1) as nat)
    }
}

/// The value of a little-endian byte string.
pub open spec fn le_val(s: Seq<u8>) -> int
    decreases s.len(),
{
    if s.len() == 0 {
        0
    } else {
        s[0] + 256 * le_val(s.drop_first())
    }
}

/// `s` occurs in `b` at offset `pos`.
pub open spec fn bytes_at(b: Seq<u8>, pos: int, s: Seq<u8>) -> bool {
    &&& 0 <= pos
    &&& pos + s.len() <= b.len()
    &&& b.subrange(pos, pos + s.len()) == s
}

/// The concrete powers of 256 that the parser reasons about.
pub proof fn lemma_pow256_vals()
    ensures
        pow256(0) == 1,
        pow256(1) == 0x100,
        pow256(2) == 0x1_0000,
        pow256(3) == 0x100_0000,
        pow256(4) == 0x1_0000_0000,
        pow256(5) == 0x100_0000_0000,
        pow256(6) == 0x1_0000_0000_0000,
        pow256(7) == 0x100_0000_0000_0000,
        pow256(8) == 0x1_0000_0000_0000_0000,
{
    reveal_with_fuel(pow256, 9);
}

pub proof fn lemma_pow256_pos(l: nat)
    ensures
        pow256(l) >= 1,
    decreases l,
{
    if l > 0 {
        lemma_pow256_pos((l - 1) as nat)
    }
}

pub proof fn lemma_le_bytes_len(n: int, l: nat)
    ensures
        le_bytes(n, l).len() == l,
    decreases l,
{
    if l > 0 {
        lemma_le_bytes_len(n / 256, (l - 1) as nat);
    }
}

pub proof fn lemma_le_val_bound(s: Seq<u8>)
    ensures
        0 <= le_val(s) < pow256(s.len()),
    decreases s.len(),
{
    if s.len() > 0 {
        lemma_le_val_bound(s.drop_first());
    }
}

/// Reading back the bytes of `n` gives `n`, for `n` in range.
pub proof fn lemma_le_val_of_bytes(n: int, l: nat)
    requires
        0 <= n < pow256(l),
    ensures
        le_val(le_bytes(n, l)) == n,
    decreases l,
{
    if l > 0 {
        assert(256 * (n / 256) + n % 256 == n);
        assert(n / 256 < pow256((l - 1) as nat));
        lemma_le_val_of_bytes(n / 256, (l - 1) as nat);
        lemma_le_bytes_len(n / 256, (l - 1) as nat);
        assert(le_bytes(n, l).drop_first() =~= le_bytes(n / 256, (l - 1) as nat));
    }
}

/// Any byte string is the encoding of its own value.
pub proof fn lemma_le_bytes_of_val(s: Seq<u8>)
    ensures
        le_bytes(le_val(s), s.len()) == s,
    decreases s.len(),
{
    if s.len() > 0 {
        let n = le_val(s);
        lemma_le_val_bound(s.drop_first());
        assert(n % 256 == s[0] && n / 256 == le_val(s.drop_first())) by {
            assert(n == s[0] + 256 * le_val(s.drop_first()));
        }
        lemma_le_bytes_of_val(s.drop_first());
        assert(le_bytes(n, s.len()) =~= s);
    }
}

/// Append the `l` low-order little-endian bytes of `x`.
pub fn push_le(out: &mut Vec<u8>, x: u64, l: usize)
    requires
        l <= 8,
    ensures
        final(out)@ == old(out)@ + le_bytes(x as int, l as nat),
    decreases l,
{
    if l == 0 {
        proof {
            assert(out@ =~= old(out)@ + le_bytes(x as int, 0));
        }
    } else {
        out.push((x % 256) as u8);
        push_le(out, x / 256, l - 1);
        proof {
            assert(out@ =~= old(out)@ + le_bytes(x as int, l as nat));
        }
    }
}

/// Read an `l`-byte little-endian value at `pos`.
pub fn read_le(b: &Vec<u8>, pos: usize, l: usize) -> (v: u64)
    requires
        l <= 8,
        pos + l <= b@.len(),
    ensures
        v as int == le_val(b@.subrange(pos as int, pos as int + l as int)),
    decreases l,
{
    if l == 0 {
        proof {
            assert(b@.subrange(pos as int, pos as int) =~= Seq::<u8>::empty());
        }
        0
    } else {
        let n = b.len();
        proof {
            // pos + 1 stays in bounds because pos + l <= n fits in usize.
            assert(pos + 1 <= n);
        }
        let rest = read_le(b, pos + 1, l - 1);
        proof {
            let tail = b@.subrange(pos as int + 1, pos as int + l as int);
            lemma_le_val_bound(tail);
            lemma_pow256_vals();
            assert(pow256(tail.len()) <= pow256(7)) by {
                lemma_pow256_increases(tail.len(), 7);
            }
            assert(b@.subrange(pos as int, pos as int + l as int).drop_first() =~= tail);
        }
        b[pos] as u64 + 256 * rest
    }
}

pub proof fn lemma_pow256_increases(l1: nat, l2: nat)
    requires
        l1 <= l2,
    ensures
        pow256(l1) <= pow256(l2),
    decreases l2,
{
    if l1 < l2 {
        lemma_pow256_increases(l1, (l2 - 1) as nat);
        lemma_pow256_pos((l2 - 1) as nat);
    }
}

/// The least number of bytes that hold `n`, for the big compact mode.
pub open spec fn needed_len(n: int) -> int {
    if n < 0x1_0000_0000 {
        4
    } else if n < 0x100_0000_0000 {
        5
    } else if n < 0x1_0000_0000_0000 {
        6
    } else if n < 0x100_0000_0000_0000 {
        7
    } else {
        8
    }
}

/// The SCALE compact encoding of `n`: two mode bits in the first byte, then
/// the value, in the shortest canonical form.
pub open spec fn compact_bytes(n: u64) -> Seq<u8> {
    if n < 64 {
        le_bytes(4 * (n as int), 1)
    } else if n < 16384 {
        le_bytes(4 * (n as int) + 1, 2)
    } else if n < 0x4000_0000 {
        le_bytes(4 * (n as int) + 2, 4)
    } else {
        let l = needed_len(n as int);
        seq![(3 + 4 * (l - 4)) as u8] + le_bytes(n as int, l as nat)
    }
}

/// Shape facts about a compact encoding: its length, its first byte's mode
/// bits, and how the value is recovered from its bytes.
pub proof fn lemma_compact_shape(v: u64)
    ensures
        compact_bytes(v).len() == (if v < 64 {
            1int
        } else if v < 16384 {
            2
        } else if v < 0x4000_0000 {
            4
        } else {
            1 + needed_len(v as int)
        }),
        v < 64 ==> compact_bytes(v)[0] == (4 * (v as int)) as u8,
        compact_bytes(v)[0] as int % 4 == (if v < 64 {
            0int
        } else if v < 16384 {
            1
        } else if v < 0x4000_0000 {
            2
        } else {
            3
        }),
        v >= 0x4000_0000 ==> compact_bytes(v)[0] as int / 4 == needed_len(v as int) - 4,
        64 <= v < 16384 ==> le_val(compact_bytes(v)) == 4 * (v as int) + 1,
        16384 <= v < 0x4000_0000 ==> le_val(compact_bytes(v)) == 4 * (v as int) + 2,
        v >= 0x4000_0000 ==> le_val(compact_bytes(v).drop_first()) == v as int && compact_bytes(
            v,
        ).drop_first().len() == needed_len(v as int),
{
    lemma_pow256_vals();
    if v < 64 {
        lemma_le_bytes_len(4 * (v as int), 1);
        assert(compact_bytes(v)[0] == ((4 * (v as int)) % 256) as u8);
        assert((4 * (v as int)) % 256 == 4 * (v as int));
        assert((4 * (v as int)) % 4 == 0) by (nonlinear_arith);
    } else if v < 16384 {
        let m = 4 * (v as int) + 1;
        lemma_le_bytes_len(m, 2);
        lemma_le_val_of_bytes(m, 2);
        lemma_pow256_vals();
        assert(compact_bytes(v)[0] == (m % 256) as u8);
        assert((4 * (v as int) + 1) % 4 == 1) by (nonlinear_arith);
        assert((m % 256) % 4 == 1) by (nonlinear_arith)
            requires
                m % 4 == 1,
        ;
    } else if v < 0x4000_0000 {
        let m = 4 * (v as int) + 2;
        lemma_le_bytes_len(m, 4);
        lemma_le_val_of_bytes(m, 4);
        lemma_pow256_vals();
        assert(compact_bytes(v)[0] == (m % 256) as u8);
        assert((4 * (v as int) + 2) % 4 == 2) by (nonlinear_arith);
        assert((m % 256) % 4 == 2) by (nonlinear_arith)
            requires
                m % 4 == 2,
        ;
    } else {
        let l = needed_len(v as int);
        lemma_le_bytes_len(v as int, l as nat);
        lemma_pow256_vals();
        lemma_le_val_of_bytes(v as int, l as nat);
        assert(compact_bytes(v).drop_first() =~= le_bytes(v as int, l as nat));
        let f = (3 + 4 * (l - 4)) as u8;
        assert(compact_bytes(v)[0] == f);
        assert(f as int % 4 == 3 && f as int / 4 == l - 4);
    }
}

/// At one offset, at most one value's compact encoding can occur.
pub proof fn lemma_compact_unique(b: Seq<u8>, pos: int, v1: u64, v2: u64)
    requires
        bytes_at(b, pos, compact_bytes(v1)),
        bytes_at(b, pos, compact_bytes(v2)),
    ensures
        v1 == v2,
{
    lemma_compact_shape(v1);
    lemma_compact_shape(v2);
    assert(b.subrange(pos, pos + compact_bytes(v1).len() as int)[0] == compact_bytes(v1)[0]);
    assert(b.subrange(pos, pos + compact_bytes(v2).len() as int)[0] == compact_bytes(v2)[0]);
    assert(compact_bytes(v1)[0] == b[pos]);
    assert(compact_bytes(v2)[0] == b[pos]);
    let l1 = compact_bytes(v1).len();
    let l2 = compact_bytes(v2).len();
    assert(l1 == l2);
    assert(compact_bytes(v1) =~= compact_bytes(v2)) by {
        assert forall|i: int| 0 <= i < l1 implies compact_bytes(v1)[i] == compact_bytes(v2)[i] by {
            assert(compact_bytes(v1)[i] == b.subrange(pos, pos + l1 as int)[i]);
            assert(compact_bytes(v2)[i] == b.subrange(pos, pos + l2 as int)[i]);
        }
    }
    if v1 < 64 {
    } else if v1 < 16384 {
    } else if v1 < 0x4000_0000 {
    } else {
        assert(compact_bytes(v1).drop_first() =~= compact_bytes(v2).drop_first());
    }
}

/// Append the SCALE compact encoding of `n`.
pub fn encode_compact(out: &mut Vec<u8>, n: u64)
    ensures
        final(out)@ == old(out)@ + compact_bytes(n),
{
    if n < 64 {
        push_le(out, 4 * n, 1);
    } else if n < 16384 {
        push_le(out, 4 * n + 1, 2);
    } else if n < 0x4000_0000 {
        push_le(out, 4 * n + 2, 4);
    } else {
        let l: usize = if n < 0x1_0000_0000 {
            4
        } else if n < 0x100_0000_0000 {
            5
        } else if n < 0x1_0000_0000_0000 {
            6
        } else if n < 0x100_0000_0000_0000 {
            7
        } else {
            8
        };
        out.push(3 + 4 * ((l as u8) - 4));
        push_le(out, n, l);
        proof {
            assert(out@ =~= old(out)@ + compact_bytes(n));
        }
    }
}

/// Parse a compact encoding at `pos`: the value and the end offset. Succeeds
/// exactly on the canonical encodings that `compact_bytes` emits, wherever
/// the surrounding bytes allow one.
pub fn decode_compact(b: &Vec<u8>, pos: usize) -> (r: Option<(u64, usize)>)
    requires
        pos <= b@.len(),
    ensures
        r matches Some(p) ==> pos < p.1 <= b@.len() && b@.subrange(pos as int, p.1 as int)
            == compact_bytes(p.0),
        forall|v: u64| #[trigger]
            bytes_at(b@, pos as int, compact_bytes(v)) ==> (r matches Some(p) && p.0 == v && p.1
                == pos + compact_bytes(v).len()),
{
    if pos >= b.len() {
        proof {
            assert forall|v: u64| !bytes_at(b@, pos as int, compact_bytes(v)) by {
                lemma_compact_shape(v);
            }
        }
        return None;
    }
    let p0 = b[pos];
    let mode = p0 % 4;
    if mode == 0 {
        let v = (p0 / 4) as u64;
        proof {
            lemma_compact_shape(v);
            assert(p0 == 4 * (v as int) + (p0 as int % 4));
            assert(b@.subrange(pos as int, pos as int + 1) =~= compact_bytes(v));
            assert forall|v2: u64| #[trigger]
                bytes_at(b@, pos as int, compact_bytes(v2)) implies v2 == v by {
                lemma_compact_unique(b@, pos as int, v, v2);
            }
        }
        Some((v, pos + 1))
    } else if mode == 1 {
        if b.len() - pos < 2 {
            proof {
                assert forall|v: u64| !bytes_at(b@, pos as int, compact_bytes(v)) by {
                    lemma_compact_shape(v);
                    if bytes_at(b@, pos as int, compact_bytes(v)) {
                        assert(compact_bytes(v)[0] == b[pos as int]);
                        assert(compact_bytes(v)[0] as int % 4 == 1);
                    }
                }
            }
            return None;
        }
        let x = read_le(b, pos, 2);
        let v = x / 4;
        if v < 64 {
            proof {
                assert forall|v2: u64| !bytes_at(b@, pos as int, compact_bytes(v2)) by {
                    lemma_compact_shape(v2);
                    if bytes_at(b@, pos as int, compact_bytes(v2)) {
                        assert(compact_bytes(v2)[0] == b[pos as int]);
                        assert(64 <= v2 < 16384);
                        assert(le_val(b@.subrange(pos as int, pos as int + 2)) == 4 * (
                        v2 as int) + 1);
                        assert(x as int == 4 * (v2 as int) + 1);
                    }
                }
            }
            return None;
        }
        proof {
            let s = b@.subrange(pos as int, pos as int + 2);
            lemma_le_val_bound(s);
            lemma_pow256_vals();
            assert(x as int % 4 == s[0] as int % 4) by {
                assert(s[0] == b[pos as int]);
                assert(x as int == s[0] + 256 * le_val(s.drop_first()));
                assert((s[0] + 256 * le_val(s.drop_first())) % 4 == s[0] as int % 4)
                    by (nonlinear_arith)
                    requires
                        le_val(s.drop_first()) >= 0,
                ;
            }
            assert(x as int == 4 * (v as int) + 1);
            lemma_compact_shape(v);
            lemma_le_bytes_of_val(s);
            assert(b@.subrange(pos as int, pos as int + 2) =~= compact_bytes(v));
            assert forall|v2: u64| #[trigger]
                bytes_at(b@, pos as int, compact_bytes(v2)) implies v2 == v by {
                lemma_compact_unique(b@, pos as int, v, v2);
            }
        }
        Some((v, pos + 2))
    } else if mode == 2 {
        if b.len() - pos < 4 {
            proof {
                assert forall|v: u64| !bytes_at(b@, pos as int, compact_bytes(v)) by {
                    lemma_compact_shape(v);
                    if bytes_at(b@, pos as int, compact_bytes(v)) {
                        assert(compact_bytes(v)[0] == b[pos as int]);
                        assert(compact_bytes(v)[0] as int % 4 == 2);
                    }
                }
            }
            return None;
        }
        let x = read_le(b, pos, 4);
        let v = x / 4;
        if v < 16384 {
            proof {
                assert forall|v2: u64| !bytes_at(b@, pos as int, compact_bytes(v2)) by {
                    lemma_compact_shape(v2);
                    if bytes_at(b@, pos as int, compact_bytes(v2)) {
                        assert(compact_bytes(v2)[0] == b[pos as int]);
                        assert(16384 <= v2 < 0x4000_0000);
                        assert(le_val(b@.subrange(pos as int, pos as int + 4)) == 4 * (
                        v2 as int) + 2);
                        assert(x as int == 4 * (v2 as int) + 2);
                    }
                }
            }
            return None;
        }
        proof {
            let s = b@.subrange(pos as int, pos as int + 4);
            lemma_le_val_bound(s);
            lemma_pow256_vals();
            assert(x as int % 4 == s[0] as int % 4) by {
                assert(s[0] == b[pos as int]);
                assert(x as int == s[0] + 256 * le_val(s.drop_first()));
                assert((s[0] + 256 * le_val(s.drop_first())) % 4 == s[0] as int % 4)
                    by (nonlinear_arith)
                    requires
                        le_val(s.drop_first()) >= 0,
                ;
            }
            assert(x as int == 4 * (v as int) + 2);
            lemma_compact_shape(v);
            lemma_le_bytes_of_val(s);
            assert(b@.subrange(pos as int, pos as int + 4) =~= compact_bytes(v));
            assert forall|v2: u64| #[trigger]
                bytes_at(b@, pos as int, compact_bytes(v2)) implies v2 == v by {
                lemma_compact_unique(b@, pos as int, v, v2);
            }
        }
        Some((v, pos + 4))
    } else {
        let l_m4 = (p0 / 4) as usize;
        if l_m4 > 4 {
            proof {
                assert forall|v: u64| !bytes_at(b@, pos as int, compact_bytes(v)) by {
                    lemma_compact_shape(v);
                    if bytes_at(b@, pos as int, compact_bytes(v)) {
                        assert(compact_bytes(v)[0] == b[pos as int]);
                        assert(v >= 0x4000_0000);
                        assert(needed_len(v as int) <= 8);
                    }
                }
            }
            return None;
        }
        let l = l_m4 + 4;
        if b.len() - (pos + 1) < l {
            proof {
                assert forall|v: u64| !bytes_at(b@, pos as int, compact_bytes(v)) by {
                    lemma_compact_shape(v);
                    if bytes_at(b@, pos as int, compact_bytes(v)) {
                        assert(compact_bytes(v)[0] == b[pos as int]);
                        assert(needed_len(v as int) - 4 == l_m4 as int);
                    }
                }
            }
            return None;
        }
        let v = read_le(b, pos + 1, l);
        let min_big: u64 = if l == 4 {
            0x4000_0000
        } else if l == 5 {
            0x1_0000_0000
        } else if l == 6 {
            0x100_0000_0000
        } else if l == 7 {
            0x1_0000_0000_0000
        } else {
            0x100_0000_0000_0000
        };
        if v < min_big {
            proof {
                assert forall|v2: u64| !bytes_at(b@, pos as int, compact_bytes(v2)) by {
                    lemma_compact_shape(v2);
                    if bytes_at(b@, pos as int, compact_bytes(v2)) {
                        assert(compact_bytes(v2)[0] == b[pos as int]);
                        assert(v2 >= 0x4000_0000);
                        assert(needed_len(v2 as int) == l as int);
                        let s = b@.subrange(pos as int + 1, pos as int + 1 + l as int);
                        assert(compact_bytes(v2).drop_first() =~= s);
                        assert(le_val(s) == v2 as int);
                        assert(v as int == v2 as int);
                    }
                }
            }
            return None;
        }
        proof {
            let s = b@.subrange(pos as int + 1, pos as int + 1 + l as int);
            lemma_le_val_bound(s);
            lemma_pow256_vals();
            assert(needed_len(v as int) == l as int);
            lemma_compact_shape(v);
            assert(p0 as int == 4 * (l as int - 4) + 3);
            lemma_le_bytes_of_val(s);
            assert(b@.subrange(pos as int, pos as int + 1 + l as int) =~= compact_bytes(v));
            assert forall|v2: u64| #[trigger]
                bytes_at(b@, pos as int, compact_bytes(v2)) implies v2 == v by {
                lemma_compact_unique(b@, pos as int, v, v2);
            }
        }
        Some((v, pos + 1 + l))
    }
}

/// Append every byte of `src`.
pub fn push_all(out: &mut Vec<u8>, src: &Vec<u8>)
    ensures
        final(out)@ == old(out)@ + src@,
{
    let mut i: usize = 0;
    while i < src.len()
        invariant
            i <= src@.len(),
            out@ == old(out)@ + src@.subrange(0, i as int),
        decreases src@.len() - i,
    {
        out.push(src[i]);
        proof {
            assert(old(out)@ + src@.subrange(0, i as int) + seq![src@[i as int]] =~= old(out)@
                + src@.subrange(0, i as int + 1));
        }
        i = i + 1;
    }
    proof {
        assert(out@ =~= old(out)@ + src@);
    }
}

} // verus!
