use vstd::prelude::*;

verus! {

/// Frame delimiter.
pub const SLIP_END: u8 = 0xc0;

/// Escape byte.
pub const SLIP_ESC: u8 = 0xdb;

/// Escaped delimiter.
pub const SLIP_ESC_END: u8 = 0xdc;

/// Escaped escape byte.
pub const SLIP_ESC_ESC: u8 = 0xdd;

// ---------------------------------------------------------------------------
// Encoding
// ---------------------------------------------------------------------------

/// How one byte is written inside a frame.
pub open spec fn escape_byte(b: u8) -> Seq<u8> {
    if b == SLIP_END {
        seq![SLIP_ESC, SLIP_ESC_END]
    } else if b == SLIP_ESC {
        seq![SLIP_ESC, SLIP_ESC_ESC]
    } else {
        seq![b]
    }
}

/// The bytes with every delimiter and escape byte escaped.
pub open spec fn escape_bytes(b: Seq<u8>) -> Seq<u8>
    decreases b.len(),
{
    if b.len() == 0 {
        Seq::empty()
    } else {
        escape_bytes(b.drop_last()) + escape_byte(b.last())
    }
}

/// A frame: delimiter, escaped bytes, delimiter.
pub open spec fn spec_slip_encode(b: Seq<u8>) -> Seq<u8> {
    seq![SLIP_END] + escape_bytes(b) + seq![SLIP_END]
}

/// Wraps `bytes` in a SLIP frame.
pub fn slip_encode(bytes: &[u8]) -> (out: Vec<u8>)
    ensures
        out@ == spec_slip_encode(bytes@),
{
    let mut out: Vec<u8> = Vec::new();
    out.push(SLIP_END);
    let mut i: usize = 0;
    while i < bytes.len()
        invariant
            i <= bytes.len(),
            out@ == seq![SLIP_END] + escape_bytes(bytes@.take(i as int)),
        decreases bytes.len() - i,
    {
        let byte = bytes[i];
        if byte == SLIP_END {
            out.push(SLIP_ESC);
            out.push(SLIP_ESC_END);
        } else if byte == SLIP_ESC {
            out.push(SLIP_ESC);
            out.push(SLIP_ESC_ESC);
        } else {
            out.push(byte);
        }
        proof {
            assert(bytes@.take(i + 1).drop_last() =~= bytes@.take(i as int));
            assert(out@ =~= seq![SLIP_END] + escape_bytes(bytes@.take(i + 1)));
        }
        i = i + 1;
    }
    out.push(SLIP_END);
    proof {
        assert(bytes@.take(bytes.len() as int) =~= bytes@);
        assert(out@ =~= spec_slip_encode(bytes@));
    }
    out
}

// ---------------------------------------------------------------------------
// Decoding
// ---------------------------------------------------------------------------

/// The decoder's state: the bytes so far and whether an escape is pending.
pub struct DecodeState {
    pub out: Seq<u8>,
    pub escaped: bool,
}

/// The decoder's reaction to one byte. Delimiters are skipped; after an escape
/// byte, `0xdc` and `0xdd` stand for the delimiter and the escape byte, and any
/// other byte for itself.
pub open spec fn decode_step(st: DecodeState, b: u8) -> DecodeState {
    if b == SLIP_END {
        st
    } else if st.escaped {
        let v = if b == SLIP_ESC_END {
            SLIP_END
        } else if b == SLIP_ESC_ESC {
            SLIP_ESC
        } else {
            b
        };
        DecodeState { out: st.out.push(v), escaped: false }
    } else if b == SLIP_ESC {
        DecodeState { out: st.out, escaped: true }
    } else {
        DecodeState { out: st.out.push(b), escaped: false }
    }
}

/// The decoder's state after the bytes, starting from `st`.
pub open spec fn decode_fold(st: DecodeState, b: Seq<u8>) -> DecodeState
    decreases b.len(),
{
    if b.len() == 0 {
        st
    } else {
        decode_step(decode_fold(st, b.drop_last()), b.last())
    }
}

pub open spec fn decode_start() -> DecodeState {
    DecodeState { out: Seq::empty(), escaped: false }
}

/// The bytes that a frame (or a piece of one) stands for.
pub open spec fn spec_slip_decode(b: Seq<u8>) -> Seq<u8> {
    decode_fold(decode_start(), b).out
}

/// Removes the SLIP framing and escapes from `frame`.
pub fn slip_decode(frame: &[u8]) -> (out: Vec<u8>)
    ensures
        out@ == spec_slip_decode(frame@),
{
    let mut out: Vec<u8> = Vec::new();
    let mut escaped = false;
    let mut i: usize = 0;
    while i < frame.len()
        invariant
            i <= frame.len(),
            decode_fold(decode_start(), frame@.take(i as int)) == (DecodeState {
                out: out@,
                escaped,
            }),
        decreases frame.len() - i,
    {
        let byte = frame[i];
        proof {
            assert(frame@.take(i + 1).drop_last() =~= frame@.take(i as int));
        }
        i = i + 1;
        if byte == SLIP_END {
            continue;
        }
        if escaped {
            if byte == SLIP_ESC_END {
                out.push(SLIP_END);
            } else if byte == SLIP_ESC_ESC {
                out.push(SLIP_ESC);
            } else {
                out.push(byte);
            }
            escaped = false;
        } else if byte == SLIP_ESC {
            escaped = true;
        } else {
            out.push(byte);
        }
    }
    proof {
        assert(frame@.take(frame.len() as int) =~= frame@);
    }
    out
}

/// Folding over two pieces one after the other is folding over both.
pub proof fn lemma_decode_fold_append(st: DecodeState, a: Seq<u8>, b: Seq<u8>)
    ensures
        decode_fold(st, a + b) == decode_fold(decode_fold(st, a), b),
    decreases b.len(),
{
    if b.len() == 0 {
        assert(a + b =~= a);
    } else {
        lemma_decode_fold_append(st, a, b.drop_last());
        assert((a + b).drop_last() =~= a + b.drop_last());
    }
}

proof fn lemma_decode_escaped(out: Seq<u8>, b: Seq<u8>)
    ensures
        decode_fold(DecodeState { out, escaped: false }, escape_bytes(b)) == (DecodeState {
            out: out + b,
            escaped: false,
        }),
    decreases b.len(),
{
    let st = DecodeState { out, escaped: false };
    if b.len() == 0 {
        assert(out + b =~= out);
    } else {
        let prefix = b.drop_last();
        let x = b.last();
        lemma_decode_escaped(out, prefix);
        lemma_decode_fold_append(st, escape_bytes(prefix), escape_byte(x));
        let mid = DecodeState { out: out + prefix, escaped: false };
        let e = escape_byte(x);
        if x == SLIP_END || x == SLIP_ESC {
            assert(e.drop_last() =~= seq![SLIP_ESC]);
            assert(e.drop_last().drop_last() =~= Seq::<u8>::empty());
            assert(decode_fold(mid, e.drop_last().drop_last()) == mid);
            assert(decode_fold(mid, e.drop_last()) == decode_step(mid, SLIP_ESC));
            assert(decode_fold(mid, e) == decode_step(decode_step(mid, SLIP_ESC), e.last()));
        } else {
            assert(e.drop_last() =~= Seq::<u8>::empty());
            assert(decode_fold(mid, e.drop_last()) == mid);
            assert(decode_fold(mid, e) == decode_step(mid, x));
        }
        assert((out + prefix).push(x) =~= out + b);
    }
}

/// Decoding an encoded frame gives back the bytes.
pub proof fn lemma_slip_roundtrip(b: Seq<u8>)
    ensures
        spec_slip_decode(spec_slip_encode(b)) == b,
        spec_slip_decode(escape_bytes(b)) == b,
{
    let st = decode_start();
    lemma_decode_fold_append(st, seq![SLIP_END] + escape_bytes(b), seq![SLIP_END]);
    lemma_decode_fold_append(st, seq![SLIP_END], escape_bytes(b));
    assert(seq![SLIP_END].drop_last() =~= Seq::<u8>::empty());
    assert(decode_fold(st, seq![SLIP_END].drop_last()) == st);
    assert(decode_fold(st, seq![SLIP_END]) == st);
    lemma_decode_escaped(Seq::empty(), b);
    assert(Seq::<u8>::empty() + b =~= b);
    let mid = DecodeState { out: b, escaped: false };
    assert(decode_fold(mid, seq![SLIP_END].drop_last()) == mid);
    assert(decode_fold(mid, seq![SLIP_END]) == mid);
}

// ---------------------------------------------------------------------------
// Splitting a stream into frames
// ---------------------------------------------------------------------------

/// The splitter's state: frames decoded so far, the bytes of the open frame,
/// and whether a delimiter has been seen.
pub struct SplitState {
    pub frames: Seq<Seq<u8>>,
    pub current: Seq<u8>,
    pub in_frame: bool,
}

/// The splitter's reaction to one byte. A delimiter closes the open frame
/// (decoding it, if it holds any bytes) and opens a new one; other bytes are
/// kept only inside a frame.
pub open spec fn split_step(st: SplitState, b: u8) -> SplitState {
    if b == SLIP_END {
        SplitState {
            frames: if st.in_frame && st.current.len() > 0 {
                st.frames.push(spec_slip_decode(st.current))
            } else {
                st.frames
            },
            current: Seq::empty(),
            in_frame: true,
        }
    } else if st.in_frame {
        SplitState { frames: st.frames, current: st.current.push(b), in_frame: true }
    } else {
        st
    }
}

pub open spec fn split_fold(st: SplitState, b: Seq<u8>) -> SplitState
    decreases b.len(),
{
    if b.len() == 0 {
        st
    } else {
        split_step(split_fold(st, b.drop_last()), b.last())
    }
}

pub open spec fn split_start() -> SplitState {
    SplitState { frames: Seq::empty(), current: Seq::empty(), in_frame: false }
}

/// The frames of a stream and the bytes of a frame left open at its end.
pub open spec fn spec_extract_slip_frames(b: Seq<u8>) -> (Seq<Seq<u8>>, Seq<u8>) {
    let st = split_fold(split_start(), b);
    (st.frames, st.current)
}

/// The contents of a list of byte vectors.
pub open spec fn vecs_view(v: Seq<Vec<u8>>) -> Seq<Seq<u8>> {
    v.map_values(|x: Vec<u8>| x@)
}

/// Splits a stream into its decoded frames and the bytes of a frame left open at its end.
pub fn extract_slip_frames(bytes: &[u8]) -> (res: (Vec<Vec<u8>>, Vec<u8>))
    ensures
        (vecs_view(res.0@), res.1@) == spec_extract_slip_frames(bytes@),
{
    let mut frames: Vec<Vec<u8>> = Vec::new();
    let mut current: Vec<u8> = Vec::new();
    let mut in_frame = false;
    let mut i: usize = 0;
    assert(vecs_view(frames@) =~= Seq::<Seq<u8>>::empty());
    while i < bytes.len()
        invariant
            i <= bytes.len(),
            split_fold(split_start(), bytes@.take(i as int)) == (SplitState {
                frames: vecs_view(frames@),
                current: current@,
                in_frame,
            }),
        decreases bytes.len() - i,
    {
        let byte = bytes[i];
        proof {
            assert(bytes@.take(i + 1).drop_last() =~= bytes@.take(i as int));
        }
        i = i + 1;
        if byte == SLIP_END {
            if in_frame && current.len() != 0 {
                let decoded = slip_decode(current.as_slice());
                let ghost before = frames@;
                frames.push(decoded);
                proof {
                    assert(vecs_view(frames@) =~= vecs_view(before).push(decoded@));
                }
            }
            current.clear();
            in_frame = true;
            continue;
        }
        if in_frame {
            current.push(byte);
        }
    }
    proof {
        assert(bytes@.take(bytes.len() as int) =~= bytes@);
    }
    (frames, current)
}

// ---------------------------------------------------------------------------
// Laws of the splitter
// ---------------------------------------------------------------------------

/// The frames written one after another.
pub open spec fn encode_frames(fs: Seq<Seq<u8>>) -> Seq<u8>
    decreases fs.len(),
{
    if fs.len() == 0 {
        Seq::empty()
    } else {
        encode_frames(fs.drop_last()) + spec_slip_encode(fs.last())
    }
}

pub proof fn lemma_split_fold_append(st: SplitState, a: Seq<u8>, b: Seq<u8>)
    ensures
        split_fold(st, a + b) == split_fold(split_fold(st, a), b),
    decreases b.len(),
{
    if b.len() == 0 {
        assert(a + b =~= a);
    } else {
        lemma_split_fold_append(st, a, b.drop_last());
        assert((a + b).drop_last() =~= a + b.drop_last());
    }
}

proof fn lemma_escape_no_end(b: Seq<u8>)
    ensures
        forall|i: int| 0 <= i < escape_bytes(b).len() ==> #[trigger] escape_bytes(b)[i] != SLIP_END,
        b.len() > 0 ==> escape_bytes(b).len() > 0,
    decreases b.len(),
{
    if b.len() > 0 {
        let p = escape_bytes(b.drop_last());
        let e = escape_byte(b.last());
        lemma_escape_no_end(b.drop_last());
        assert forall|i: int| 0 <= i < escape_bytes(b).len() implies #[trigger] escape_bytes(b)[i]
            != SLIP_END by {
            if i < p.len() {
                assert(escape_bytes(b)[i] == p[i]);
            } else {
                assert(escape_bytes(b)[i] == e[i - p.len()]);
            }
        }
    }
}

proof fn lemma_split_inside(frames: Seq<Seq<u8>>, current: Seq<u8>, b: Seq<u8>)
    requires
        forall|i: int| 0 <= i < b.len() ==> #[trigger] b[i] != SLIP_END,
    ensures
        split_fold(SplitState { frames, current, in_frame: true }, b) == (SplitState {
            frames,
            current: current + b,
            in_frame: true,
        }),
    decreases b.len(),
{
    if b.len() == 0 {
        assert(current + b =~= current);
    } else {
        lemma_split_inside(frames, current, b.drop_last());
        assert((current + b.drop_last()).push(b.last()) =~= current + b);
    }
}

/// Splitting frames written one after another gives back each frame, and no
/// bytes are left over, when no frame is empty.
pub proof fn lemma_extract_encoded_frames(fs: Seq<Seq<u8>>)
    requires
        forall|i: int| 0 <= i < fs.len() ==> (#[trigger] fs[i]).len() > 0,
    ensures
        split_fold(split_start(), encode_frames(fs)) == (SplitState {
            frames: fs,
            current: Seq::empty(),
            in_frame: fs.len() > 0,
        }),
        spec_extract_slip_frames(encode_frames(fs)) == (fs, Seq::<u8>::empty()),
    decreases fs.len(),
{
    if fs.len() > 0 {
        let prev = fs.drop_last();
        let f = fs.last();
        assert forall|i: int| 0 <= i < prev.len() implies (#[trigger] prev[i]).len() > 0 by {
            assert(prev[i] == fs[i]);
        }
        lemma_extract_encoded_frames(prev);
        let st = SplitState { frames: prev, current: Seq::empty(), in_frame: prev.len() > 0 };
        let e = escape_bytes(f);
        lemma_split_fold_append(split_start(), encode_frames(prev), spec_slip_encode(f));
        lemma_split_fold_append(st, seq![SLIP_END] + e, seq![SLIP_END]);
        lemma_split_fold_append(st, seq![SLIP_END], e);
        assert(seq![SLIP_END].drop_last() =~= Seq::<u8>::empty());
        let st1 = SplitState { frames: prev, current: Seq::empty(), in_frame: true };
        assert(split_fold(st, seq![SLIP_END].drop_last()) == st);
        assert(split_fold(st, seq![SLIP_END]) == st1);
        lemma_escape_no_end(f);
        lemma_split_inside(prev, Seq::empty(), e);
        assert(Seq::<u8>::empty() + e =~= e);
        lemma_slip_roundtrip(f);
        let st2 = SplitState { frames: prev, current: e, in_frame: true };
        assert(split_fold(st2, seq![SLIP_END].drop_last()) == st2);
        assert(split_fold(st2, seq![SLIP_END]) == split_step(st2, SLIP_END));
        assert(prev.push(f) =~= fs);
    } else {
        assert(fs =~= Seq::<Seq<u8>>::empty());
    }
}

/// Splitting frames written one after another and followed by the start of an
/// unfinished frame (bytes without a delimiter) gives back each frame and the
/// unfinished bytes, when there is at least one frame and none is empty.
pub proof fn lemma_extract_encoded_frames_with_remainder(fs: Seq<Seq<u8>>, r: Seq<u8>)
    requires
        fs.len() > 0,
        forall|i: int| 0 <= i < fs.len() ==> (#[trigger] fs[i]).len() > 0,
        forall|i: int| 0 <= i < r.len() ==> #[trigger] r[i] != SLIP_END,
    ensures
        spec_extract_slip_frames(encode_frames(fs) + r) == (fs, r),
{
    lemma_extract_encoded_frames(fs);
    lemma_split_fold_append(split_start(), encode_frames(fs), r);
    lemma_split_inside(fs, Seq::empty(), r);
    assert(Seq::<u8>::empty() + r =~= r);
}

proof fn lemma_escape_append(a: Seq<u8>, b: Seq<u8>)
    ensures
        escape_bytes(a + b) == escape_bytes(a) + escape_bytes(b),
    decreases b.len(),
{
    if b.len() == 0 {
        assert(a + b =~= a);
        assert(escape_bytes(a) + escape_bytes(b) =~= escape_bytes(a));
    } else {
        lemma_escape_append(a, b.drop_last());
        assert((a + b).drop_last() =~= a + b.drop_last());
        assert(escape_bytes(a) + escape_bytes(b.drop_last()) + escape_byte(b.last()) =~= escape_bytes(a)
            + (escape_bytes(b.drop_last()) + escape_byte(b.last())));
    }
}

/// SLIP framing as RFC 1055 lays it out: a frame is `0xc0`, the bytes, `0xc0`;
/// each byte is written by itself, except `0xc0`, written as `0xdb 0xdc`, and
/// `0xdb`, written as `0xdb 0xdd`; bytes are written independently of their
/// neighbours. Decoding reads `0xdb 0xdc` as `0xc0`, `0xdb 0xdd` as `0xdb`,
/// skips `0xc0`, and keeps every other byte.
pub proof fn lemma_slip_layout(a: Seq<u8>, b: Seq<u8>, x: u8)
    ensures
        spec_slip_encode(a) == seq![0xc0u8] + escape_bytes(a) + seq![0xc0u8],
        escape_bytes(a + b) == escape_bytes(a) + escape_bytes(b),
        escape_bytes(seq![x]) == (if x == 0xc0 {
            seq![0xdbu8, 0xdcu8]
        } else if x == 0xdb {
            seq![0xdbu8, 0xddu8]
        } else {
            seq![x]
        }),
        (forall|i: int| 0 <= i < a.len() ==> #[trigger] a[i] != 0xc0 && a[i] != 0xdb) ==> escape_bytes(
            a,
        ) == a,
        spec_slip_decode(seq![0xdbu8, 0xdcu8]) == seq![0xc0u8],
        spec_slip_decode(seq![0xdbu8, 0xddu8]) == seq![0xdbu8],
        spec_slip_decode(seq![0xc0u8]) == Seq::<u8>::empty(),
        x != 0xc0 && x != 0xdb ==> spec_slip_decode(seq![x]) == seq![x],
    decreases a.len(),
{
    lemma_escape_append(a, b);
    assert(seq![x].drop_last() =~= Seq::<u8>::empty());
    assert(Seq::<u8>::empty() + escape_byte(x) =~= escape_byte(x));
    assert(escape_bytes(seq![x]) == escape_bytes(Seq::<u8>::empty()) + escape_byte(x));
    if forall|i: int| 0 <= i < a.len() ==> #[trigger] a[i] != 0xc0 && a[i] != 0xdb {
        if a.len() > 0 {
            let w = a.drop_last();
            assert forall|i: int| 0 <= i < w.len() implies #[trigger] w[i] != 0xc0 && w[i] != 0xdb by {
                assert(w[i] == a[i]);
            }
            lemma_slip_layout(w, b, x);
            assert(w.push(a.last()) =~= a);
        } else {
            assert(a =~= Seq::<u8>::empty());
        }
    }
    let d1 = seq![0xdbu8, 0xdcu8];
    assert(d1.drop_last() =~= seq![0xdbu8]);
    assert(seq![0xdbu8].drop_last() =~= Seq::<u8>::empty());
    let esc = decode_fold(decode_start(), seq![0xdbu8]);
    assert(esc == decode_step(decode_fold(decode_start(), Seq::<u8>::empty()), 0xdbu8));
    assert(esc == (DecodeState { out: Seq::<u8>::empty(), escaped: true }));
    assert(decode_fold(decode_start(), d1) == decode_step(esc, 0xdcu8));
    let d2 = seq![0xdbu8, 0xddu8];
    assert(d2.drop_last() =~= seq![0xdbu8]);
    assert(decode_fold(decode_start(), d2) == decode_step(esc, 0xddu8));
    assert(seq![0xc0u8].drop_last() =~= Seq::<u8>::empty());
    assert(Seq::<u8>::empty().push(0xc0u8) =~= seq![0xc0u8]);
    assert(Seq::<u8>::empty().push(0xdbu8) =~= seq![0xdbu8]);
    assert(Seq::<u8>::empty().push(x) =~= seq![x]);
}

} // verus!
