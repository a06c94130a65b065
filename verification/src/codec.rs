//! The path codec: a deterministic, order-preserving mapping from
//! hierarchical path keys into the flat byte-key namespace.
//!
//! The engine stores every key with a one-byte namespace tag. A
//! client-supplied flat key `f` is stored as `[FLAT_TAG] ++ f`; a path is
//! stored as `[PATH_TAG]` followed, for each segment in order, by a
//! separator byte and the escaped segment bytes. Escaping replaces the
//! separator byte `0x00` with `0x01 0x01` and the escape byte `0x01` with
//! `0x01 0x02`, so an escaped segment never contains the separator. The
//! two tags differ, so a path key and a flat key can never alias.
//!
//! Because the separator is the smallest byte value, an encoded path that
//! extends another by further segments sorts immediately after it: a range
//! scan over an encoded subtree yields depth-first, prefix-coherent order.
//! The scheme is an on-disk format guarantee and must stay stable.

use vstd::prelude::*;

verus! {

/// First byte of every stored path key.
pub const PATH_TAG: u8 = 0x00;
/// First byte of every stored flat key.
pub const FLAT_TAG: u8 = 0x01;
/// Separator standing before each encoded segment.
pub const SEP: u8 = 0x00;
/// Escape byte inside an encoded segment.
pub const ESC: u8 = 0x01;
/// Byte separating segments in the textual form of a path (`/`).
pub const SLASH: u8 = 0x2f;

/// The escaped form of one segment byte.
pub open spec fn esc_byte(b: u8) -> Seq<u8> {
    if b == SEP {
        seq![ESC, 0x01u8]
    } else if b == ESC {
        seq![ESC, 0x02u8]
    } else {
        seq![b]
    }
}

/// The escaped form of a whole segment.
pub open spec fn esc(s: Seq<u8>) -> Seq<u8>
    decreases s.len(),
{
    if s.len() == 0 {
        Seq::empty()
    } else {
        esc_byte(s[0]) + esc(s.drop_first())
    }
}

/// The body of an encoded path: a separator before each escaped segment.
pub open spec fn encode_body(segs: Seq<Seq<u8>>) -> Seq<u8>
    decreases segs.len(),
{
    if segs.len() == 0 {
        Seq::empty()
    } else {
        seq![SEP] + esc(segs[0]) + encode_body(segs.drop_first())
    }
}

/// The stored form of a path given as a segment sequence.
pub open spec fn encode_spec(segs: Seq<Seq<u8>>) -> Seq<u8> {
    seq![PATH_TAG] + encode_body(segs)
}

/// The stored form of a client-supplied flat key.
pub open spec fn flat_key_spec(k: Seq<u8>) -> Seq<u8> {
    seq![FLAT_TAG] + k
}

/// Splitting a byte string at a separator byte, as `split` on text does:
/// the empty string yields one empty piece, and a trailing separator
/// yields a trailing empty piece.
pub open spec fn split_at(s: Seq<u8>, sep: u8) -> Seq<Seq<u8>>
    decreases s.len(),
{
    if s.len() == 0 {
        seq![Seq::empty()]
    } else {
        let r = split_at(s.drop_last(), sep);
        if s.last() == sep {
            r.push(Seq::empty())
        } else {
            r.update(r.len() - 1, r.last().push(s.last()))
        }
    }
}

/// The stored form of a path given in textual, slash-delimited form.
pub open spec fn path_key_spec(path: Seq<u8>) -> Seq<u8> {
    encode_spec(split_at(path, SLASH))
}

/// Unescaping one segment; `None` on bytes no escaped segment contains.
pub open spec fn unesc(s: Seq<u8>) -> Option<Seq<u8>>
    decreases s.len(),
{
    if s.len() == 0 {
        Some(Seq::empty())
    } else if s[0] == ESC {
        if s.len() >= 2 && s[1] == 0x01 {
            match unesc(s.skip(2)) {
                Some(t) => Some(seq![SEP] + t),
                None => None,
            }
        } else if s.len() >= 2 && s[1] == 0x02 {
            match unesc(s.skip(2)) {
                Some(t) => Some(seq![ESC] + t),
                None => None,
            }
        } else {
            None
        }
    } else if s[0] == SEP {
        None
    } else {
        match unesc(s.drop_first()) {
            Some(t) => Some(seq![s[0]] + t),
            None => None,
        }
    }
}

/// Unescaping every chunk of a split body; `None` if any chunk fails.
pub open spec fn unesc_all(cs: Seq<Seq<u8>>) -> Option<Seq<Seq<u8>>>
    decreases cs.len(),
{
    if cs.len() == 0 {
        Some(Seq::empty())
    } else {
        match unesc(cs[0]) {
            Some(t) => match unesc_all(cs.drop_first()) {
                Some(r) => Some(seq![t] + r),
                None => None,
            },
            None => None,
        }
    }
}

/// The inverse transform: the segment sequence a stored path key encodes,
/// or `None` for a byte string no path encodes to.
pub open spec fn decode_spec(k: Seq<u8>) -> Option<Seq<Seq<u8>>> {
    if k.len() == 0 || k[0] != PATH_TAG {
        None
    } else {
        let chunks = split_at(k.drop_first(), SEP);
        if chunks[0].len() != 0 {
            None
        } else {
            unesc_all(chunks.drop_first())
        }
    }
}

/// The views of a vector of byte vectors.
pub open spec fn views_of(v: Seq<Vec<u8>>) -> Seq<Seq<u8>> {
    v.map(|i: int, s: Vec<u8>| s@)
}

proof fn lemma_esc_snoc(s: Seq<u8>, b: u8)
    ensures
        esc(s.push(b)) == esc(s) + esc_byte(b),
    decreases s.len(),
{
    let sp = s.push(b);
    if s.len() == 0 {
        assert(sp.drop_first() =~= Seq::<u8>::empty());
        assert(esc(sp) == esc_byte(b) + esc(Seq::<u8>::empty()));
        assert(esc(sp) =~= esc(s) + esc_byte(b));
    } else {
        lemma_esc_snoc(s.drop_first(), b);
        assert(sp.drop_first() =~= s.drop_first().push(b));
        assert(sp[0] == s[0]);
        assert(esc(sp) == esc_byte(s[0]) + esc(s.drop_first().push(b)));
        assert(esc(s) == esc_byte(s[0]) + esc(s.drop_first()));
        assert(esc(sp) =~= esc(s) + esc_byte(b));
    }
}

proof fn lemma_body_snoc(segs: Seq<Seq<u8>>, t: Seq<u8>)
    ensures
        encode_body(segs.push(t)) == encode_body(segs) + seq![SEP] + esc(t),
    decreases segs.len(),
{
    let sp = segs.push(t);
    if segs.len() == 0 {
        assert(sp.drop_first() =~= Seq::<Seq<u8>>::empty());
        assert(encode_body(sp) == seq![SEP] + esc(t) + encode_body(Seq::<Seq<u8>>::empty()));
        assert(encode_body(sp) =~= encode_body(segs) + seq![SEP] + esc(t));
    } else {
        lemma_body_snoc(segs.drop_first(), t);
        assert(sp.drop_first() =~= segs.drop_first().push(t));
        assert(sp[0] == segs[0]);
        assert(encode_body(sp) == seq![SEP] + esc(segs[0]) + encode_body(segs.drop_first().push(t)));
        assert(encode_body(segs) == seq![SEP] + esc(segs[0]) + encode_body(segs.drop_first()));
        assert(encode_body(sp) =~= encode_body(segs) + seq![SEP] + esc(t));
    }
}

/// An escaped segment never contains the separator byte.
proof fn lemma_esc_sep_free(s: Seq<u8>)
    ensures
        forall|i: int| 0 <= i < esc(s).len() ==> esc(s)[i] != SEP,
    decreases s.len(),
{
    if s.len() > 0 {
        lemma_esc_sep_free(s.drop_first());
        let hd = esc_byte(s[0]);
        assert(esc(s) == hd + esc(s.drop_first()));
        assert forall|i: int| 0 <= i < esc(s).len() implies esc(s)[i] != SEP by {
            if i < hd.len() {
                assert(esc(s)[i] == hd[i]);
            } else {
                assert(esc(s)[i] == esc(s.drop_first())[i - hd.len()]);
            }
        }
    }
}

proof fn lemma_split_snoc_sep(s: Seq<u8>, sep: u8)
    ensures
        split_at(s.push(sep), sep) == split_at(s, sep).push(Seq::empty()),
{
    assert(s.push(sep).drop_last() =~= s);
    assert(split_at(s.push(sep), sep) =~= split_at(s, sep).push(Seq::empty()));
}

proof fn lemma_split_snoc_other(s: Seq<u8>, sep: u8, b: u8)
    requires
        b != sep,
    ensures
        split_at(s, sep).len() >= 1,
        split_at(s.push(b), sep) == split_at(s, sep).update(
            split_at(s, sep).len() - 1,
            split_at(s, sep).last().push(b),
        ),
{
    lemma_split_len(s, sep);
    assert(s.push(b).drop_last() =~= s);
}

proof fn lemma_split_len(s: Seq<u8>, sep: u8)
    ensures
        split_at(s, sep).len() >= 1,
    decreases s.len(),
{
    if s.len() > 0 {
        lemma_split_len(s.drop_last(), sep);
    }
}

proof fn lemma_split_append_sep_free(x: Seq<u8>, e: Seq<u8>, sep: u8)
    requires
        forall|i: int| 0 <= i < e.len() ==> e[i] != sep,
    ensures
        split_at(x, sep).len() >= 1,
        split_at(x + e, sep) == split_at(x, sep).update(
            split_at(x, sep).len() - 1,
            split_at(x, sep).last() + e,
        ),
    decreases e.len(),
{
    lemma_split_len(x, sep);
    if e.len() == 0 {
        assert(x + e =~= x);
        assert(split_at(x, sep).last() + e =~= split_at(x, sep).last());
        assert(split_at(x, sep).update(
            split_at(x, sep).len() - 1,
            split_at(x, sep).last() + e,
        ) =~= split_at(x, sep));
    } else {
        let ep = e.drop_last();
        let b = e.last();
        let sx = split_at(x, sep);
        let n = sx.len() - 1;
        lemma_split_append_sep_free(x, ep, sep);
        let mid = split_at(x + ep, sep);
        assert(mid == sx.update(n, sx.last() + ep));
        assert(mid.len() == sx.len());
        assert(mid.last() == sx.last() + ep);
        assert(x + e =~= (x + ep).push(b));
        lemma_split_snoc_other(x + ep, sep, b);
        assert(split_at(x + e, sep) == mid.update(n, mid.last().push(b)));
        assert((sx.last() + ep).push(b) =~= sx.last() + e);
        assert(mid.update(n, mid.last().push(b)) =~= sx.update(n, sx.last() + e));
    }
}

/// Splitting the body of an encoded path recovers one empty leading chunk
/// and then exactly the escaped segments.
proof fn lemma_split_body(segs: Seq<Seq<u8>>)
    ensures
        split_at(encode_body(segs), SEP) == seq![Seq::<u8>::empty()] + segs.map(
            |i: int, s: Seq<u8>| esc(s),
        ),
    decreases segs.len(),
{
    let escs = |i: int, s: Seq<u8>| esc(s);
    if segs.len() == 0 {
        assert(split_at(encode_body(segs), SEP) =~= seq![Seq::<u8>::empty()] + segs.map(escs));
    } else {
        let front = segs.drop_last();
        lemma_split_body(front);
        lemma_body_snoc(front, segs.last());
        assert(segs =~= front.push(segs.last()));
        let b = encode_body(front);
        assert(encode_body(segs) =~= (b + seq![SEP]) + esc(segs.last()));
        assert(b + seq![SEP] =~= b.push(SEP));
        lemma_split_snoc_sep(b, SEP);
        lemma_esc_sep_free(segs.last());
        lemma_split_append_sep_free(b.push(SEP), esc(segs.last()), SEP);
        assert(split_at(b.push(SEP), SEP).last() =~= Seq::<u8>::empty());
        assert(Seq::<u8>::empty() + esc(segs.last()) =~= esc(segs.last()));
        assert(front.map(escs).push(esc(segs.last())) =~= segs.map(escs));
        assert(split_at(encode_body(segs), SEP) =~= seq![Seq::<u8>::empty()] + segs.map(escs));
    }
}

/// Unescaping undoes escaping on every segment.
proof fn lemma_unesc_esc(s: Seq<u8>)
    ensures
        unesc(esc(s)) == Some(s),
    decreases s.len(),
{
    if s.len() == 0 {
        assert(unesc(esc(s)) =~= Some(s));
    } else {
        lemma_unesc_esc(s.drop_first());
        let e = esc(s);
        if s[0] == SEP || s[0] == ESC {
            assert(e =~= esc_byte(s[0]) + esc(s.drop_first()));
            assert(e.len() >= 2);
            assert(e.skip(2) =~= esc(s.drop_first()));
            assert(seq![s[0]] + s.drop_first() =~= s);
        } else {
            assert(e[0] == s[0]);
            assert(e.drop_first() =~= esc(s.drop_first()));
            assert(seq![s[0]] + s.drop_first() =~= s);
        }
    }
}

proof fn lemma_unesc_all_escs(segs: Seq<Seq<u8>>)
    ensures
        unesc_all(segs.map(|i: int, s: Seq<u8>| esc(s))) == Some(segs),
    decreases segs.len(),
{
    let escs = |i: int, s: Seq<u8>| esc(s);
    if segs.len() == 0 {
        assert(unesc_all(segs.map(escs)) =~= Some(segs));
    } else {
        lemma_unesc_all_escs(segs.drop_first());
        lemma_unesc_esc(segs[0]);
        assert(segs.map(escs).drop_first() =~= segs.drop_first().map(escs));
        assert(segs.map(escs)[0] == esc(segs[0]));
        assert(seq![segs[0]] + segs.drop_first() =~= segs);
    }
}

/// The codec round-trips: decoding an encoded path yields exactly the
/// original segment sequence, for every segment sequence, empty segments
/// and separator-adjacent bytes included.
pub proof fn lemma_round_trip(segs: Seq<Seq<u8>>)
    ensures
        decode_spec(encode_spec(segs)) == Some(segs),
{
    let k = encode_spec(segs);
    assert(k[0] == PATH_TAG);
    assert(k.drop_first() =~= encode_body(segs));
    lemma_split_body(segs);
    let chunks = split_at(encode_body(segs), SEP);
    assert(chunks[0] =~= Seq::<u8>::empty());
    assert(chunks.drop_first() =~= segs.map(|i: int, s: Seq<u8>| esc(s)));
    lemma_unesc_all_escs(segs);
}

/// The encoding is a bijection onto its range: distinct segment sequences
/// encode to distinct keys.
pub proof fn lemma_encode_injective(a: Seq<Seq<u8>>, b: Seq<Seq<u8>>)
    requires
        encode_spec(a) == encode_spec(b),
    ensures
        a == b,
{
    lemma_round_trip(a);
    lemma_round_trip(b);
}

/// A path key never collides with a flat key: the stored forms of the two
/// namespaces are disjoint, whatever the path and whatever the flat key.
pub proof fn lemma_path_flat_distinct(segs: Seq<Seq<u8>>, f: Seq<u8>)
    ensures
        encode_spec(segs) != flat_key_spec(f),
{
    assert(encode_spec(segs)[0] == PATH_TAG);
    assert(flat_key_spec(f)[0] == FLAT_TAG);
}

/// Encodes a path, given as its segments, into its stored flat form.
pub fn encode(segs: &Vec<Vec<u8>>) -> (r: Vec<u8>)
    ensures
        r@ == encode_spec(views_of(segs@)),
{
    let ghost gsegs = views_of(segs@);
    let mut out: Vec<u8> = Vec::new();
    out.push(PATH_TAG);
    let mut i: usize = 0;
    while i < segs.len()
        invariant
            i <= segs@.len(),
            gsegs == views_of(segs@),
            gsegs.len() == segs@.len(),
            out@ == seq![PATH_TAG] + encode_body(gsegs.take(i as int)),
        decreases segs@.len() - i,
    {
        out.push(SEP);
        let ghost done = gsegs.take(i as int);
        let ghost seg = segs@[i as int]@;
        let mut j: usize = 0;
        while j < segs[i].len()
            invariant
                i < segs@.len(),
                j <= seg.len(),
                gsegs == views_of(segs@),
                seg == segs@[i as int]@,
                out@ == seq![PATH_TAG] + encode_body(done) + seq![SEP] + esc(seg.take(j as int)),
            decreases seg.len() - j,
        {
            let b = segs[i][j];
            proof {
                assert(seg.take(j as int).push(b) =~= seg.take(j + 1 as int));
                lemma_esc_snoc(seg.take(j as int), b);
            }
            if b == SEP {
                out.push(ESC);
                out.push(0x01);
            } else if b == ESC {
                out.push(ESC);
                out.push(0x02);
            } else {
                out.push(b);
            }
            j += 1;
        }
        proof {
            assert(seg.take(seg.len() as int) =~= seg);
            assert(done.push(seg) =~= gsegs.take(i + 1 as int));
            lemma_body_snoc(done, seg);
            assert(out@ =~= seq![PATH_TAG] + encode_body(gsegs.take(i + 1 as int)));
        }
        i += 1;
    }
    proof {
        assert(gsegs.take(gsegs.len() as int) =~= gsegs);
    }
    out
}

/// Maps a client-supplied flat key into its stored form.
pub fn flat_key(k: &Vec<u8>) -> (r: Vec<u8>)
    ensures
        r@ == flat_key_spec(k@),
{
    let mut out: Vec<u8> = Vec::new();
    out.push(FLAT_TAG);
    let mut i: usize = 0;
    while i < k.len()
        invariant
            i <= k@.len(),
            out@ == seq![FLAT_TAG] + k@.take(i as int),
        decreases k@.len() - i,
    {
        out.push(k[i]);
        proof {
            assert(k@.take(i as int).push(k@[i as int]) =~= k@.take(i + 1 as int));
        }
        i += 1;
    }
    proof {
        assert(k@.take(k@.len() as int) =~= k@);
    }
    out
}

/// Splits a byte string at a separator byte.
pub fn split_bytes(s: &Vec<u8>, sep: u8) -> (r: Vec<Vec<u8>>)
    ensures
        views_of(r@) == split_at(s@, sep),
{
    let mut segs: Vec<Vec<u8>> = Vec::new();
    let mut cur: Vec<u8> = Vec::new();
    let mut i: usize = 0;
    while i < s.len()
        invariant
            i <= s@.len(),
            views_of(segs@).push(cur@) == split_at(s@.take(i as int), sep),
        decreases s@.len() - i,
    {
        let ghost prev = s@.take(i as int);
        let ghost oldsegs = views_of(segs@);
        let ghost oldcur = cur@;
        let b = s[i];
        proof {
            assert(prev.push(b) =~= s@.take(i + 1 as int));
            lemma_split_len(prev, sep);
        }
        if b == sep {
            segs.push(cur);
            cur = Vec::new();
            proof {
                lemma_split_snoc_sep(prev, sep);
                assert(views_of(segs@) =~= oldsegs.push(oldcur));
                assert(views_of(segs@).push(cur@) =~= split_at(prev, sep).push(Seq::<u8>::empty()));
            }
        } else {
            cur.push(b);
            proof {
                lemma_split_snoc_other(prev, sep, b);
                let sp = split_at(prev, sep);
                assert(sp == oldsegs.push(oldcur));
                assert(sp.last() == oldcur);
                assert(cur@ =~= oldcur.push(b));
                assert(split_at(prev.push(b), sep) == sp.update(sp.len() - 1, oldcur.push(b)));
                assert(views_of(segs@) == oldsegs);
                assert(views_of(segs@).push(cur@) =~= sp.update(sp.len() - 1, oldcur.push(b)));
            }
        }
        i += 1;
    }
    segs.push(cur);
    proof {
        assert(s@.take(s@.len() as int) =~= s@);
        assert(views_of(segs@) =~= split_at(s@, sep));
    }
    segs
}

/// Encodes a slash-delimited textual path into its stored flat form.
pub fn path_key(path: &Vec<u8>) -> (r: Vec<u8>)
    ensures
        r@ == path_key_spec(path@),
{
    let segs = split_bytes(path, SLASH);
    encode(&segs)
}

/// Glues an already-unescaped prefix onto the rest of an unescape.
pub open spec fn glue_bytes(a: Seq<u8>, o: Option<Seq<u8>>) -> Option<Seq<u8>> {
    match o {
        Some(t) => Some(a + t),
        None => None,
    }
}

/// Glues already-decoded segments onto the rest of a decode.
pub open spec fn glue_segs(a: Seq<Seq<u8>>, o: Option<Seq<Seq<u8>>>) -> Option<Seq<Seq<u8>>> {
    match o {
        Some(t) => Some(a + t),
        None => None,
    }
}

fn unescape_chunk(c: &Vec<u8>) -> (r: Option<Vec<u8>>)
    ensures
        match r {
            Some(v) => unesc(c@) == Some(v@),
            None => unesc(c@) is None,
        },
{
    let mut out: Vec<u8> = Vec::new();
    let mut i: usize = 0;
    proof {
        assert(c@.skip(0) =~= c@);
        assert(forall|t: Seq<u8>| Seq::<u8>::empty() + t =~= t);
    }
    while i < c.len()
        invariant
            i <= c@.len(),
            unesc(c@) == glue_bytes(out@, unesc(c@.skip(i as int))),
        decreases c@.len() - i,
    {
        let ghost rest = c@.skip(i as int);
        let ghost oldout = out@;
        proof {
            assert(rest[0] == c@[i as int]);
            assert(rest.drop_first() =~= c@.skip(i + 1 as int));
        }
        let b = c[i];
        if b == ESC {
            if i + 1 >= c.len() {
                return None;
            }
            let b2 = c[i + 1];
            proof {
                assert(rest[1] == c@[i + 1 as int]);
                assert(rest.skip(2) =~= c@.skip(i + 2 as int));
            }
            if b2 == 0x01 {
                out.push(SEP);
                proof {
                    assert(forall|t: Seq<u8>| oldout + (seq![SEP] + t) =~= (oldout.push(SEP)) + t);
                }
                i += 2;
            } else if b2 == 0x02 {
                out.push(ESC);
                proof {
                    assert(forall|t: Seq<u8>| oldout + (seq![ESC] + t) =~= (oldout.push(ESC)) + t);
                }
                i += 2;
            } else {
                return None;
            }
        } else if b == SEP {
            return None;
        } else {
            out.push(b);
            proof {
                assert(forall|t: Seq<u8>| oldout + (seq![rest[0]] + t) =~= (oldout.push(rest[0])) + t);
            }
            i += 1;
        }
    }
    proof {
        assert(c@.skip(c@.len() as int) =~= Seq::<u8>::empty());
        assert(out@ + Seq::<u8>::empty() =~= out@);
    }
    Some(out)
}

/// Decodes a stored path key back into its segments.
///
/// Defined exactly on the keys [`encode`] produces: for those it returns
/// the original segments, and for every other byte string it returns
/// `None`, as [`decode_spec`] states.
pub fn decode(k: &Vec<u8>) -> (r: Option<Vec<Vec<u8>>>)
    ensures
        match r {
            Some(segs) => decode_spec(k@) == Some(views_of(segs@)),
            None => decode_spec(k@) is None,
        },
{
    if k.len() == 0 {
        return None;
    }
    if k[0] != PATH_TAG {
        return None;
    }
    let mut body: Vec<u8> = Vec::new();
    let mut i: usize = 1;
    while i < k.len()
        invariant
            1 <= i <= k@.len(),
            body@ == k@.subrange(1, i as int),
        decreases k@.len() - i,
    {
        body.push(k[i]);
        proof {
            assert(k@.subrange(1, i as int).push(k@[i as int]) =~= k@.subrange(1, i + 1 as int));
        }
        i += 1;
    }
    proof {
        assert(body@ =~= k@.drop_first());
        lemma_split_len(body@, SEP);
    }
    let chunks = split_bytes(&body, SEP);
    let ghost gchunks = views_of(chunks@);
    proof {
        assert(gchunks.len() == chunks@.len());
    }
    if chunks[0].len() != 0 {
        proof {
            assert(gchunks[0] == chunks@[0]@);
            assert(gchunks == split_at(k@.drop_first(), SEP));
        }
        return None;
    }
    proof {
        assert(gchunks[0] == chunks@[0]@);
        assert(gchunks[0].len() == 0);
    }
    let ghost tail = gchunks.drop_first();
    proof {
        assert(gchunks == split_at(k@.drop_first(), SEP));
        assert(decode_spec(k@) == unesc_all(tail));
        assert(tail.skip(0) =~= tail);
        assert(forall|t: Seq<Seq<u8>>| Seq::<Seq<u8>>::empty() + t =~= t);
    }
    let mut segs: Vec<Vec<u8>> = Vec::new();
    let mut ci: usize = 1;
    while ci < chunks.len()
        invariant
            1 <= ci <= chunks@.len(),
            gchunks == views_of(chunks@),
            tail == gchunks.drop_first(),
            decode_spec(k@) == unesc_all(tail),
            unesc_all(tail) == glue_segs(views_of(segs@), unesc_all(tail.skip(ci - 1 as int))),
        decreases chunks@.len() - ci,
    {
        let ghost rest = tail.skip(ci - 1 as int);
        let ghost oldsegs = views_of(segs@);
        proof {
            assert(rest.len() == tail.len() - (ci - 1));
            assert(rest[0] == tail[ci - 1 as int]);
            assert(tail[ci - 1 as int] == gchunks[ci as int]);
            assert(gchunks[ci as int] == chunks@[ci as int]@);
            assert(rest.drop_first() =~= tail.skip(ci as int));
        }
        match unescape_chunk(&chunks[ci]) {
            Some(seg) => {
                segs.push(seg);
                proof {
                    assert(views_of(segs@) =~= oldsegs.push(seg@));
                    assert(forall|t: Seq<Seq<u8>>| oldsegs + (seq![seg@] + t) =~= (oldsegs.push(
                        seg@,
                    )) + t);
                }
            },
            None => {
                proof {
                    assert(unesc_all(rest) is None);
                }
                return None;
            },
        }
        ci += 1;
    }
    proof {
        assert(tail.skip(tail.len() as int) =~= Seq::<Seq<u8>>::empty());
        assert(views_of(segs@) + Seq::<Seq<u8>>::empty() =~= views_of(segs@));
    }
    Some(segs)
}

} // verus!
