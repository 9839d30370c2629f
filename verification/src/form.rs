use vstd::prelude::*;

verus! {

// ---------------------------------------------------------------------------
// Percent codec
//
// The wire format of a submission is application/x-www-form-urlencoded:
// segments separated by `&`, each segment split at its first `=` into a key
// and a value, both percent-encoded (`%XX` for a byte written in hex, `+` for
// a space). The grammar is this library's own logic, stated here as spec
// functions over byte sequences and implemented by verified functions.
// ---------------------------------------------------------------------------

/// The byte is an ASCII hex digit.
pub open spec fn is_hex_digit(b: u8) -> bool {
    (48 <= b && b <= 57) || (97 <= b && b <= 102) || (65 <= b && b <= 70)
}

/// Numeric value of an ASCII hex digit.
pub open spec fn hex_val(b: u8) -> u8 {
    if 48 <= b && b <= 57 {
        (b - 48) as u8
    } else if 97 <= b && b <= 102 {
        (b - 97 + 10) as u8
    } else {
        (b - 65 + 10) as u8
    }
}

/// The byte written by the two hex digits `hi`, `lo`.
pub open spec fn hex_byte(hi: u8, lo: u8) -> u8 {
    (16 * hex_val(hi) + hex_val(lo)) as u8
}

/// Lifts prepending one byte over an optional decode result.
pub open spec fn opt_prepend(b: u8, r: Option<Seq<u8>>) -> Option<Seq<u8>> {
    match r {
        Some(t) => Some(seq![b] + t),
        None => None,
    }
}

/// Percent-decoding of one segment part: `%XX` becomes the byte XX, `+`
/// becomes a space, every other byte stands for itself. A `%` not followed by
/// two hex digits makes the whole part malformed.
pub open spec fn percent_decoded(s: Seq<u8>) -> Option<Seq<u8>>
    decreases s.len(),
{
    if s.len() == 0 {
        Some(Seq::empty())
    } else if s[0] == 37 {
        if s.len() >= 3 && is_hex_digit(s[1]) && is_hex_digit(s[2]) {
            opt_prepend(hex_byte(s[1], s[2]), percent_decoded(s.skip(3)))
        } else {
            None
        }
    } else if s[0] == 43 {
        opt_prepend(32, percent_decoded(s.skip(1)))
    } else {
        opt_prepend(s[0], percent_decoded(s.skip(1)))
    }
}

/// The byte is one the encoder leaves as itself: an ASCII letter, a digit,
/// or one of `-`, `.`, `_`, `~`.
pub open spec fn is_unreserved(b: u8) -> bool {
    (48 <= b && b <= 57) || (65 <= b && b <= 90) || (97 <= b && b <= 122) || b == 45 || b == 46
        || b == 95 || b == 126
}

/// Upper-case ASCII hex digit for a value below sixteen.
pub open spec fn hex_digit_char(v: int) -> u8 {
    if v < 10 {
        (48 + v) as u8
    } else {
        (55 + v) as u8
    }
}

/// Encoding of a single byte: unreserved bytes stand for themselves, every
/// other byte becomes `%` and two hex digits.
pub open spec fn enc_byte(b: u8) -> Seq<u8> {
    if is_unreserved(b) {
        seq![b]
    } else {
        seq![37u8, hex_digit_char(b as int / 16), hex_digit_char(b as int % 16)]
    }
}

/// Percent-encoding of a whole part, byte by byte.
pub open spec fn percent_encoded(s: Seq<u8>) -> Seq<u8>
    decreases s.len(),
{
    if s.len() == 0 {
        Seq::empty()
    } else {
        enc_byte(s[0]) + percent_encoded(s.skip(1))
    }
}

/// The hex digit the encoder writes is a hex digit and reads back as the
/// value it was written from.
proof fn lemma_hex_digit_char(v: int)
    requires
        0 <= v < 16,
    ensures
        is_hex_digit(hex_digit_char(v)),
        hex_val(hex_digit_char(v)) == v,
{
}

/// Decoding what the encoder wrote for one byte peels exactly that byte off,
/// whatever follows it.
proof fn lemma_decode_enc_byte(b: u8, t: Seq<u8>)
    ensures
        percent_decoded(enc_byte(b) + t) == opt_prepend(b, percent_decoded(t)),
{
    let u = enc_byte(b) + t;
    if is_unreserved(b) {
        assert(u[0] == b);
        assert(u.skip(1) =~= t);
    } else {
        let hi = b as int / 16;
        let lo = b as int % 16;
        lemma_hex_digit_char(hi);
        lemma_hex_digit_char(lo);
        assert(u[0] == 37u8 && u[1] == hex_digit_char(hi) && u[2] == hex_digit_char(lo));
        vstd::arithmetic::div_mod::lemma_fundamental_div_mod(b as int, 16);
        assert(hex_byte(u[1], u[2]) == b);
        assert(u.skip(3) =~= t);
    }
}

/// Percent-decoding reverses percent-encoding losslessly: decoding an encoded
/// part always succeeds and gives back exactly the bytes that were encoded.
pub proof fn lemma_percent_round_trip(s: Seq<u8>)
    ensures
        percent_decoded(percent_encoded(s)) == Some(s),
    decreases s.len(),
{
    if s.len() == 0 {
        assert(percent_encoded(s) =~= Seq::<u8>::empty());
    } else {
        lemma_percent_round_trip(s.skip(1));
        lemma_decode_enc_byte(s[0], percent_encoded(s.skip(1)));
        assert(seq![s[0]] + s.skip(1) =~= s);
    }
}

/// Numeric value of an ASCII hex digit.
fn hex_val_x(b: u8) -> (v: u8)
    requires
        is_hex_digit(b),
    ensures
        v == hex_val(b),
        v < 16,
{
    if 48 <= b && b <= 57 {
        b - 48
    } else if 97 <= b && b <= 102 {
        b - 97 + 10
    } else {
        b - 65 + 10
    }
}

/// Restating an optional decode after one more decoded byte was moved into
/// the finished prefix.
proof fn lemma_opt_prepend_shift(p: Seq<u8>, b: u8, r: Option<Seq<u8>>)
    ensures
        (match opt_prepend(b, r) {
            Some(t) => Some(p + t),
            None => None::<Seq<u8>>,
        }) == (match r {
            Some(t) => Some(p.push(b) + t),
            None => None::<Seq<u8>>,
        }),
{
    match r {
        Some(t) => {
            assert(p + (seq![b] + t) =~= p.push(b) + t);
        },
        None => {},
    }
}

/// Percent-decodes one part of a segment. Returns `None` exactly where the
/// part is malformed (a `%` not followed by two hex digits).
pub fn percent_decode(s: &[u8]) -> (r: Option<Vec<u8>>)
    ensures
        match r {
            Some(v) => percent_decoded(s@) == Some(v@),
            None => percent_decoded(s@) is None,
        },
{
    let mut out: Vec<u8> = Vec::new();
    let mut i: usize = 0;
    proof {
        assert(s@.skip(0) =~= s@);
        match percent_decoded(s@) {
            Some(t) => {
                assert(Seq::<u8>::empty() + t =~= t);
            },
            None => {},
        }
    }
    while i < s.len()
        invariant
            i <= s@.len(),
            percent_decoded(s@) == (match percent_decoded(s@.skip(i as int)) {
                Some(t) => Some(out@ + t),
                None => None::<Seq<u8>>,
            }),
        decreases s@.len() - i,
    {
        let ghost rest = s@.skip(i as int);
        assert(rest.len() == s@.len() - i);
        assert(rest[0] == s@[i as int]);
        let b = s[i];
        if b == 37 {
            if s.len() - i >= 3 && is_hex_digit_x(s[i + 1]) && is_hex_digit_x(s[i + 2]) {
                assert(rest[1] == s@[i + 1] && rest[2] == s@[i + 2]);
                let v: u8 = 16 * hex_val_x(s[i + 1]) + hex_val_x(s[i + 2]);
                assert(v == hex_byte(rest[1], rest[2]));
                proof {
                    assert(rest.skip(3) =~= s@.skip(i + 3));
                    lemma_opt_prepend_shift(out@, v, percent_decoded(s@.skip(i + 3)));
                }
                out.push(v);
                i = i + 3;
            } else {
                proof {
                    if rest.len() >= 3 {
                        assert(rest[1] == s@[i + 1] && rest[2] == s@[i + 2]);
                    }
                    assert(percent_decoded(rest) is None);
                }
                return None;
            }
        } else {
            let d: u8 = if b == 43 {
                32
            } else {
                b
            };
            proof {
                assert(rest.skip(1) =~= s@.skip(i + 1));
                assert(percent_decoded(rest) == opt_prepend(d, percent_decoded(s@.skip(i + 1))));
                lemma_opt_prepend_shift(out@, d, percent_decoded(s@.skip(i + 1)));
            }
            out.push(d);
            i = i + 1;
        }
    }
    proof {
        assert(s@.skip(i as int) =~= Seq::<u8>::empty());
        assert(out@ + Seq::<u8>::empty() =~= out@);
    }
    Some(out)
}

/// The byte is an ASCII hex digit.
fn is_hex_digit_x(b: u8) -> (r: bool)
    ensures
        r == is_hex_digit(b),
{
    (48 <= b && b <= 57) || (97 <= b && b <= 102) || (65 <= b && b <= 70)
}

/// Percent-encodes one part of a segment.
pub fn percent_encode(s: &[u8]) -> (r: Vec<u8>)
    ensures
        r@ == percent_encoded(s@),
{
    let mut out: Vec<u8> = Vec::new();
    let mut i: usize = 0;
    proof {
        assert(s@.skip(0) =~= s@);
    }
    while i < s.len()
        invariant
            i <= s@.len(),
            percent_encoded(s@) == out@ + percent_encoded(s@.skip(i as int)),
        decreases s@.len() - i,
    {
        let ghost rest = s@.skip(i as int);
        assert(rest[0] == s@[i as int]);
        let b = s[i];
        let ghost out0 = out@;
        if (48 <= b && b <= 57) || (65 <= b && b <= 90) || (97 <= b && b <= 122) || b == 45 || b
            == 46 || b == 95 || b == 126 {
            out.push(b);
            proof {
                assert(out@ =~= out0 + seq![b]);
            }
        } else {
            let hi: u8 = b / 16;
            let lo: u8 = b % 16;
            out.push(37);
            out.push(if hi < 10 {
                48 + hi
            } else {
                55 + hi
            });
            out.push(if lo < 10 {
                48 + lo
            } else {
                55 + lo
            });
            proof {
                assert(out@ =~= out0 + enc_byte(b));
            }
        }
        proof {
            assert(rest.skip(1) =~= s@.skip(i + 1));
            assert(percent_encoded(rest) == enc_byte(b) + percent_encoded(s@.skip(i + 1)));
            assert(out0 + (enc_byte(b) + percent_encoded(s@.skip(i + 1))) =~= (out0 + enc_byte(b))
                + percent_encoded(s@.skip(i + 1)));
        }
        i = i + 1;
    }
    proof {
        assert(s@.skip(i as int) =~= Seq::<u8>::empty());
        assert(out@ + Seq::<u8>::empty() =~= out@);
    }
    out
}

// ---------------------------------------------------------------------------
// Segments and pairs
// ---------------------------------------------------------------------------

/// Splitting a body on `&`: prepending a byte either opens a fresh empty
/// segment (for `&` itself) or grows the front segment. The split of any body
/// has at least one segment, and the split of the empty body is one empty
/// segment.
pub open spec fn amp_split(s: Seq<u8>) -> Seq<Seq<u8>>
    decreases s.len(),
{
    if s.len() == 0 {
        seq![Seq::<u8>::empty()]
    } else {
        let rest = amp_split(s.skip(1));
        if s[0] == 38 {
            seq![Seq::<u8>::empty()] + rest
        } else {
            seq![seq![s[0]] + rest[0]] + rest.skip(1)
        }
    }
}

/// The views of a sequence of byte vectors.
pub open spec fn seq_views(vs: Seq<Vec<u8>>) -> Seq<Seq<u8>> {
    vs.map_values(|v: Vec<u8>| v@)
}

/// Splits a body into its `&`-separated segments.
pub fn split_amp(s: &[u8]) -> (r: Vec<Vec<u8>>)
    ensures
        seq_views(r@) == amp_split(s@),
        r@.len() >= 1,
{
    let mut segs: Vec<Vec<u8>> = Vec::new();
    segs.push(Vec::new());
    let mut i: usize = s.len();
    proof {
        assert(s@.skip(i as int) =~= Seq::<u8>::empty());
        assert(seq_views(segs@) =~= seq![Seq::<u8>::empty()]);
    }
    while i > 0
        invariant
            i <= s@.len(),
            segs@.len() >= 1,
            seq_views(segs@) == amp_split(s@.skip(i as int)),
        decreases i,
    {
        i = i - 1;
        let b = s[i];
        let ghost t = s@.skip(i as int);
        let ghost t_rest = s@.skip(i + 1);
        proof {
            assert(t[0] == s@[i as int]);
            assert(t.skip(1) =~= t_rest);
        }
        if b == 38 {
            segs.insert(0, Vec::new());
            proof {
                assert(seq_views(segs@) =~= seq![Seq::<u8>::empty()] + amp_split(t_rest));
            }
        } else {
            let ghost old_views = seq_views(segs@);
            let mut first = segs.remove(0);
            first.insert(0, b);
            proof {
                assert(first@ =~= seq![b] + old_views[0]);
            }
            segs.insert(0, first);
            proof {
                assert(seq_views(segs@) =~= seq![seq![b] + old_views[0]] + old_views.skip(1));
            }
        }
    }
    proof {
        assert(s@.skip(0) =~= s@);
    }
    segs
}

/// Splitting a segment at its first `=`: everything before it is the raw key,
/// everything after it the raw value. A segment without `=` is a key with an
/// empty value.
pub open spec fn eq_split(seg: Seq<u8>) -> (Seq<u8>, Seq<u8>)
    decreases seg.len(),
{
    if seg.len() == 0 {
        (Seq::<u8>::empty(), Seq::<u8>::empty())
    } else if seg[0] == 61 {
        (Seq::<u8>::empty(), seg.skip(1))
    } else {
        let r = eq_split(seg.skip(1));
        (seq![seg[0]] + r.0, r.1)
    }
}

/// The split of a segment whose first `=`, if any, stands at position `j`.
proof fn lemma_eq_split_at(seg: Seq<u8>, j: int)
    requires
        0 <= j <= seg.len(),
        forall|k: int| 0 <= k < j ==> seg[k] != 61,
        j < seg.len() ==> seg[j] == 61,
    ensures
        eq_split(seg).0 == seg.take(j),
        eq_split(seg).1 == if j < seg.len() {
            seg.skip(j + 1)
        } else {
            Seq::<u8>::empty()
        },
    decreases j,
{
    if j == 0 {
        if seg.len() == 0 {
            assert(seg.take(0) =~= Seq::<u8>::empty());
        } else {
            assert(seg.take(0) =~= Seq::<u8>::empty());
        }
    } else {
        let rest = seg.skip(1);
        assert(forall|k: int| 0 <= k < j - 1 ==> rest[k] == seg[k + 1] && rest[k] != 61);
        lemma_eq_split_at(rest, j - 1);
        assert(seq![seg[0]] + rest.take(j - 1) =~= seg.take(j));
        if j < seg.len() {
            assert(rest.skip(j) =~= seg.skip(j + 1));
        }
    }
}

/// Splits one segment into its raw key and raw value at the first `=`.
pub fn split_eq(seg: &[u8]) -> (r: (Vec<u8>, Vec<u8>))
    ensures
        r.0@ == eq_split(seg@).0,
        r.1@ == eq_split(seg@).1,
{
    let mut j: usize = 0;
    while j < seg.len() && seg[j] != 61
        invariant
            j <= seg@.len(),
            forall|k: int| 0 <= k < j ==> seg@[k] != 61,
        decreases seg@.len() - j,
    {
        j = j + 1;
    }
    proof {
        lemma_eq_split_at(seg@, j as int);
    }
    if j < seg.len() {
        let key = subvec(seg, 0, j);
        let val = subvec(seg, j + 1, seg.len());
        proof {
            assert(seg@.take(j as int) =~= seg@.subrange(0, j as int));
            assert(seg@.skip(j + 1) =~= seg@.subrange(j + 1, seg@.len() as int));
        }
        (key, val)
    } else {
        let key = subvec(seg, 0, seg.len());
        proof {
            assert(seg@.take(j as int) =~= seg@.subrange(0, seg@.len() as int));
        }
        (key, Vec::new())
    }
}

/// Copies out the bytes of a slice between two positions.
fn subvec(s: &[u8], a: usize, b: usize) -> (r: Vec<u8>)
    requires
        a <= b <= s@.len(),
    ensures
        r@ == s@.subrange(a as int, b as int),
{
    let mut out: Vec<u8> = Vec::new();
    let mut k: usize = a;
    proof {
        assert(s@.subrange(a as int, a as int) =~= out@);
    }
    while k < b
        invariant
            a <= k <= b <= s@.len(),
            out@ == s@.subrange(a as int, k as int),
        decreases b - k,
    {
        out.push(s[k]);
        proof {
            assert(s@.subrange(a as int, k + 1) =~= s@.subrange(a as int, k as int).push(
                s@[k as int],
            ));
        }
        k = k + 1;
    }
    out
}

/// The decoded key/value pairs of a sequence of segments. Empty segments are
/// skipped; every other segment is split at its first `=` and both parts are
/// percent-decoded. One malformed part makes the whole body malformed.
pub open spec fn pairs_of_segments(segs: Seq<Seq<u8>>) -> Option<Seq<(Seq<u8>, Seq<u8>)>>
    decreases segs.len(),
{
    if segs.len() == 0 {
        Some(Seq::empty())
    } else {
        let rest = pairs_of_segments(segs.skip(1));
        if segs[0].len() == 0 {
            rest
        } else {
            let ks = eq_split(segs[0]);
            match (percent_decoded(ks.0), percent_decoded(ks.1), rest) {
                (Some(k), Some(v), Some(t)) => Some(seq![(k, v)] + t),
                _ => None,
            }
        }
    }
}

/// The decoded key/value pairs of a whole body, or `None` where the body is
/// malformed.
pub open spec fn form_pairs(body: Seq<u8>) -> Option<Seq<(Seq<u8>, Seq<u8>)>> {
    pairs_of_segments(amp_split(body))
}

/// The views of a sequence of decoded pairs.
pub open spec fn pair_views(ps: Seq<(Vec<u8>, Vec<u8>)>) -> Seq<(Seq<u8>, Seq<u8>)> {
    ps.map_values(|p: (Vec<u8>, Vec<u8>)| (p.0@, p.1@))
}

/// Decodes a whole body into its key/value pairs. Returns `None` exactly
/// where the body is malformed.
pub fn parse_form_pairs(body: &[u8]) -> (r: Option<Vec<(Vec<u8>, Vec<u8>)>>)
    ensures
        match r {
            Some(ps) => form_pairs(body@) == Some(pair_views(ps@)),
            None => form_pairs(body@) is None,
        },
{
    let segs = split_amp(body);
    let ghost views = seq_views(segs@);
    let mut out: Vec<(Vec<u8>, Vec<u8>)> = Vec::new();
    let mut i: usize = 0;
    proof {
        assert(views.skip(0) =~= views);
        match form_pairs(body@) {
            Some(t) => {
                assert(pair_views(out@) + t =~= t);
            },
            None => {},
        }
    }
    while i < segs.len()
        invariant
            i <= segs@.len(),
            views == seq_views(segs@),
            views == amp_split(body@),
            form_pairs(body@) == (match pairs_of_segments(views.skip(i as int)) {
                Some(t) => Some(pair_views(out@) + t),
                None => None::<Seq<(Seq<u8>, Seq<u8>)>>,
            }),
        decreases segs@.len() - i,
    {
        let ghost sv = views.skip(i as int);
        proof {
            assert(sv[0] == segs@[i as int]@);
            assert(sv.skip(1) =~= views.skip(i + 1));
        }
        let seg = &segs[i];
        if seg.len() > 0 {
            let (kr, vr) = split_eq(seg.as_slice());
            let kd = percent_decode(kr.as_slice());
            let vd = percent_decode(vr.as_slice());
            match (kd, vd) {
                (Some(k), Some(v)) => {
                    proof {
                        let ghost out0 = pair_views(out@);
                        match pairs_of_segments(views.skip(i + 1)) {
                            Some(t) => {
                                assert(pairs_of_segments(sv) == Some(seq![(k@, v@)] + t));
                                assert(pair_views(out@.push((k, v))) =~= out0.push((k@, v@)));
                                assert(out0 + (seq![(k@, v@)] + t) =~= out0.push((k@, v@)) + t);
                            },
                            None => {
                                assert(pairs_of_segments(sv) is None);
                            },
                        }
                    }
                    out.push((k, v));
                },
                _ => {
                    proof {
                        assert(pairs_of_segments(sv) is None);
                    }
                    return None;
                },
            }
        }
        i = i + 1;
    }
    proof {
        assert(views.skip(i as int) =~= Seq::<Seq<u8>>::empty());
        match form_pairs(body@) {
            Some(t) => {
                assert(pair_views(out@) + Seq::<(Seq<u8>, Seq<u8>)>::empty() =~= pair_views(out@));
            },
            None => {},
        }
    }
    Some(out)
}

// ---------------------------------------------------------------------------
// Field lookup
// ---------------------------------------------------------------------------

/// The bytes of the key `name`.
pub open spec fn name_key() -> Seq<u8> {
    seq![110u8, 97u8, 109u8, 101u8]
}

/// The bytes of the key `email`.
pub open spec fn email_key() -> Seq<u8> {
    seq![101u8, 109u8, 97u8, 105u8, 108u8]
}

/// The value of the first pair whose key is `key`.
pub open spec fn find_value(ps: Seq<(Seq<u8>, Seq<u8>)>, key: Seq<u8>) -> Option<Seq<u8>>
    decreases ps.len(),
{
    if ps.len() == 0 {
        None
    } else if ps[0].0 == key {
        Some(ps[0].1)
    } else {
        find_value(ps.skip(1), key)
    }
}

/// How many pairs carry the key `key`.
pub open spec fn key_count(ps: Seq<(Seq<u8>, Seq<u8>)>, key: Seq<u8>) -> nat
    decreases ps.len(),
{
    if ps.len() == 0 {
        0
    } else {
        (if ps[0].0 == key {
            1nat
        } else {
            0nat
        }) + key_count(ps.skip(1), key)
    }
}

/// Byte-for-byte equality of two slices.
fn bytes_eq(a: &[u8], b: &[u8]) -> (r: bool)
    ensures
        r == (a@ == b@),
{
    if a.len() != b.len() {
        return false;
    }
    let mut j: usize = 0;
    while j < a.len()
        invariant
            j <= a@.len(),
            a@.len() == b@.len(),
            forall|k: int| 0 <= k < j ==> a@[k] == b@[k],
        decreases a@.len() - j,
    {
        if a[j] != b[j] {
            return false;
        }
        j = j + 1;
    }
    proof {
        assert(a@ =~= b@);
    }
    true
}

/// Position of the first pair whose key is `key`, with the value the spec
/// lookup gives.
fn find_key_index(ps: &Vec<(Vec<u8>, Vec<u8>)>, key: &[u8]) -> (r: Option<usize>)
    ensures
        match r {
            Some(i) => i < ps@.len() && ps@[i as int].0@ == key@ && find_value(
                pair_views(ps@),
                key@,
            ) == Some(ps@[i as int].1@),
            None => find_value(pair_views(ps@), key@) is None,
        },
{
    let ghost views = pair_views(ps@);
    let mut i: usize = 0;
    proof {
        assert(views.skip(0) =~= views);
    }
    while i < ps.len()
        invariant
            i <= ps@.len(),
            views == pair_views(ps@),
            find_value(views, key@) == find_value(views.skip(i as int), key@),
        decreases ps@.len() - i,
    {
        let ghost sv = views.skip(i as int);
        proof {
            assert(sv[0] == views[i as int]);
            assert(sv.skip(1) =~= views.skip(i + 1));
        }
        if bytes_eq(ps[i].0.as_slice(), key) {
            return Some(i);
        }
        i = i + 1;
    }
    proof {
        assert(views.skip(i as int) =~= Seq::<(Seq<u8>, Seq<u8>)>::empty());
    }
    None
}

/// How many pairs carry the key `key`.
fn count_key(ps: &Vec<(Vec<u8>, Vec<u8>)>, key: &[u8]) -> (c: usize)
    ensures
        c == key_count(pair_views(ps@), key@),
{
    let ghost views = pair_views(ps@);
    let mut c: usize = 0;
    let mut i: usize = 0;
    proof {
        assert(views.skip(0) =~= views);
    }
    while i < ps.len()
        invariant
            i <= ps@.len(),
            c <= i,
            views == pair_views(ps@),
            key_count(views, key@) == c + key_count(views.skip(i as int), key@),
        decreases ps@.len() - i,
    {
        let ghost sv = views.skip(i as int);
        proof {
            assert(sv[0] == views[i as int]);
            assert(sv.skip(1) =~= views.skip(i + 1));
        }
        if bytes_eq(ps[i].0.as_slice(), key) {
            c = c + 1;
        }
        i = i + 1;
    }
    proof {
        assert(views.skip(i as int) =~= Seq::<(Seq<u8>, Seq<u8>)>::empty());
    }
    c
}

// ---------------------------------------------------------------------------
// The submission grammar's outcome
// ---------------------------------------------------------------------------

/// Why a submission body was rejected.
#[derive(Clone, Copy, Debug, PartialEq, Eq, Structural)]
pub enum FormError {
    /// The body is not well-formed form encoding, or repeats a field.
    Malformed,
    /// The body carries no `name` field.
    MissingName,
    /// The body carries no `email` field.
    MissingEmail,
    /// The body carries neither field.
    MissingBoth,
}

/// What a submission body means: the decoded `name` and `email` values, or
/// the exact reason the body is rejected.
pub open spec fn parsed_register(body: Seq<u8>) -> Result<(Seq<u8>, Seq<u8>), FormError> {
    match form_pairs(body) {
        None => Err(FormError::Malformed),
        Some(pairs) => {
            if key_count(pairs, name_key()) > 1 || key_count(pairs, email_key()) > 1 {
                Err(FormError::Malformed)
            } else {
                match (find_value(pairs, name_key()), find_value(pairs, email_key())) {
                    (Some(n), Some(e)) => Ok((n, e)),
                    (None, Some(_)) => Err(FormError::MissingName),
                    (Some(_), None) => Err(FormError::MissingEmail),
                    (None, None) => Err(FormError::MissingBoth),
                }
            }
        },
    }
}

// ---------------------------------------------------------------------------
// Encoding a submission
// ---------------------------------------------------------------------------

/// The body a client sends for the given field values: both percent-encoded,
/// each behind its key, joined by `&`.
pub open spec fn form_encoded_body(name: Seq<u8>, email: Seq<u8>) -> Seq<u8> {
    name_key() + seq![61u8] + percent_encoded(name) + seq![38u8] + email_key() + seq![61u8]
        + percent_encoded(email)
}

/// Builds the body a client sends for the given field values.
pub fn encode_form_body(name: &[u8], email: &[u8]) -> (b: Vec<u8>)
    ensures
        b@ == form_encoded_body(name@, email@),
{
    let mut b: Vec<u8> = Vec::new();
    b.push(110);
    b.push(97);
    b.push(109);
    b.push(101);
    b.push(61);
    let mut en = percent_encode(name);
    b.append(&mut en);
    b.push(38);
    b.push(101);
    b.push(109);
    b.push(97);
    b.push(105);
    b.push(108);
    b.push(61);
    let mut ee = percent_encode(email);
    b.append(&mut ee);
    proof {
        assert(b@ =~= form_encoded_body(name@, email@));
    }
    b
}

/// No byte the encoder emits is a separator: neither `&` nor `=`.
proof fn lemma_encoded_sep_free(s: Seq<u8>)
    ensures
        forall|k: int|
            0 <= k < percent_encoded(s).len() ==> percent_encoded(s)[k] != 38
                && percent_encoded(s)[k] != 61,
    decreases s.len(),
{
    if s.len() > 0 {
        lemma_encoded_sep_free(s.skip(1));
        let e = enc_byte(s[0]);
        assert forall|k: int|
            0 <= k < percent_encoded(s).len() implies percent_encoded(s)[k] != 38
            && percent_encoded(s)[k] != 61 by {
            if k < e.len() {
                assert(percent_encoded(s)[k] == e[k]);
            } else {
                assert(percent_encoded(s)[k] == percent_encoded(s.skip(1))[k - e.len()]);
            }
        }
    }
}

/// A segment without `&` splits into itself alone.
proof fn lemma_amp_split_free(c: Seq<u8>)
    requires
        forall|k: int| 0 <= k < c.len() ==> c[k] != 38,
    ensures
        amp_split(c) == seq![c],
    decreases c.len(),
{
    if c.len() == 0 {
        assert(c =~= Seq::<u8>::empty());
        assert(amp_split(c) == seq![c]);
    } else {
        lemma_amp_split_free(c.skip(1));
        assert(seq![c[0]] + c.skip(1) =~= c);
        assert(seq![c.skip(1)].skip(1) =~= Seq::<Seq<u8>>::empty());
        assert(amp_split(c) == seq![seq![c[0]] + c.skip(1)] + Seq::<Seq<u8>>::empty());
        assert(seq![c] + Seq::<Seq<u8>>::empty() =~= seq![c]);
    }
}

/// Splitting a body that is an `&`-free part, one `&`, and a rest: the part
/// comes off whole.
proof fn lemma_amp_split_cat(a: Seq<u8>, b: Seq<u8>)
    requires
        forall|k: int| 0 <= k < a.len() ==> a[k] != 38,
    ensures
        amp_split(a + seq![38u8] + b) == seq![a] + amp_split(b),
    decreases a.len(),
{
    let u = a + seq![38u8] + b;
    if a.len() == 0 {
        assert(u[0] == 38);
        assert(u.skip(1) =~= b);
        assert(a =~= Seq::<u8>::empty());
        assert(amp_split(u) == seq![Seq::<u8>::empty()] + amp_split(b));
    } else {
        assert(u[0] == a[0]);
        assert(u.skip(1) =~= a.skip(1) + seq![38u8] + b);
        lemma_amp_split_cat(a.skip(1), b);
        let rest = seq![a.skip(1)] + amp_split(b);
        assert(rest[0] == a.skip(1));
        assert(seq![a[0]] + a.skip(1) =~= a);
        assert(rest.skip(1) =~= amp_split(b));
        assert(amp_split(u) =~= seq![a] + amp_split(b));
    }
}

/// A part holding neither `%` nor `+` decodes to itself.
proof fn lemma_decode_literal(s: Seq<u8>)
    requires
        forall|k: int| 0 <= k < s.len() ==> s[k] != 37 && s[k] != 43,
    ensures
        percent_decoded(s) == Some(s),
    decreases s.len(),
{
    if s.len() > 0 {
        lemma_decode_literal(s.skip(1));
        assert(seq![s[0]] + s.skip(1) =~= s);
    }
}

/// Round trip of a whole submission: the body built for any two field values
/// is well formed and means exactly those values, so what a client form
/// encodes, the service decodes back losslessly.
pub proof fn lemma_form_round_trip(name: Seq<u8>, email: Seq<u8>)
    ensures
        parsed_register(form_encoded_body(name, email)) == Ok::<(Seq<u8>, Seq<u8>), FormError>(
            (name, email),
        ),
{
    let en = percent_encoded(name);
    let ee = percent_encoded(email);
    let seg1 = name_key() + seq![61u8] + en;
    let seg2 = email_key() + seq![61u8] + ee;
    let body = form_encoded_body(name, email);

    // The body splits into exactly the two segments.
    lemma_encoded_sep_free(name);
    lemma_encoded_sep_free(email);
    assert(body =~= seg1 + seq![38u8] + seg2);
    assert forall|k: int| 0 <= k < seg1.len() implies seg1[k] != 38 by {
        if k >= 5 {
            assert(seg1[k] == en[k - 5]);
        }
    }
    assert forall|k: int| 0 <= k < seg2.len() implies seg2[k] != 38 by {
        if k >= 6 {
            assert(seg2[k] == ee[k - 6]);
        }
    }
    lemma_amp_split_cat(seg1, seg2);
    lemma_amp_split_free(seg2);
    let segs = amp_split(body);
    assert(segs =~= seq![seg1, seg2]);

    // Each segment splits at its one `=` into the key and the encoded value.
    assert forall|k: int| 0 <= k < 4 implies seg1[k] != 61 by {}
    assert(seg1[4] == 61);
    lemma_eq_split_at(seg1, 4);
    assert(seg1.take(4) =~= name_key());
    assert(seg1.skip(5) =~= en);
    assert forall|k: int| 0 <= k < 5 implies seg2[k] != 61 by {}
    assert(seg2[5] == 61);
    lemma_eq_split_at(seg2, 5);
    assert(seg2.take(5) =~= email_key());
    assert(seg2.skip(6) =~= ee);

    // Keys decode to themselves, values decode back to the field values.
    assert(forall|k: int| 0 <= k < 4 ==> name_key()[k] != 37 && name_key()[k] != 43);
    assert(forall|k: int| 0 <= k < 5 ==> email_key()[k] != 37 && email_key()[k] != 43);
    lemma_decode_literal(name_key());
    lemma_decode_literal(email_key());
    lemma_percent_round_trip(name);
    lemma_percent_round_trip(email);

    // The pairs are exactly the two fields.
    let pairs = seq![(name_key(), name), (email_key(), email)];
    assert(segs.skip(1) =~= seq![seg2]);
    assert(seq![seg2].skip(1) =~= Seq::<Seq<u8>>::empty());
    assert(pairs_of_segments(Seq::<Seq<u8>>::empty()) == Some(Seq::<(Seq<u8>, Seq<u8>)>::empty()));
    assert(seq![(email_key(), email)] + Seq::<(Seq<u8>, Seq<u8>)>::empty() =~= seq![
        (email_key(), email),
    ]);
    assert(pairs_of_segments(seq![seg2]) == Some(seq![(email_key(), email)]));
    assert(seq![(name_key(), name)] + seq![(email_key(), email)] =~= pairs);
    assert(pairs_of_segments(segs) == Some(pairs));

    // Each key occurs once and carries its value.
    assert(name_key().len() == 4 && email_key().len() == 5);
    assert(name_key() != email_key());
    let p1 = pairs.skip(1);
    assert(p1 =~= seq![(email_key(), email)]);
    assert(p1.skip(1) =~= Seq::<(Seq<u8>, Seq<u8>)>::empty());
    let none = Seq::<(Seq<u8>, Seq<u8>)>::empty();
    assert(key_count(none, name_key()) == 0);
    assert(key_count(none, email_key()) == 0);
    assert(p1[0].0 == email_key() && p1[0].1 == email);
    assert(key_count(p1, name_key()) == 0);
    assert(key_count(p1, email_key()) == 1);
    assert(pairs[0].0 == name_key() && pairs[0].1 == name);
    assert(key_count(pairs, name_key()) == 1);
    assert(key_count(pairs, email_key()) == 1);
    assert(find_value(p1, email_key()) == Some(email));
    assert(find_value(pairs, name_key()) == Some(name));
    assert(find_value(pairs, email_key()) == Some(email));
}

/// The two decoded field values of a well-formed body, or the exact rejection.
pub fn parse_form_fields(body: &[u8]) -> (r: Result<(Vec<u8>, Vec<u8>), FormError>)
    ensures
        match r {
            Ok(p) => parsed_register(body@) == Ok::<(Seq<u8>, Seq<u8>), FormError>((p.0@, p.1@)),
            Err(e) => parsed_register(body@) == Err::<(Seq<u8>, Seq<u8>), FormError>(e),
        },
{
    let name_k: [u8; 4] = [110, 97, 109, 101];
    let email_k: [u8; 5] = [101, 109, 97, 105, 108];
    proof {
        assert(name_k@ =~= name_key());
        assert(email_k@ =~= email_key());
    }
    match parse_form_pairs(body) {
        None => Err(FormError::Malformed),
        Some(mut ps) => {
            if count_key(&ps, name_k.as_slice()) > 1 || count_key(&ps, email_k.as_slice()) > 1 {
                return Err(FormError::Malformed);
            }
            let ni = find_key_index(&ps, name_k.as_slice());
            let ei = find_key_index(&ps, email_k.as_slice());
            match (ni, ei) {
                (Some(i), Some(j)) => {
                    proof {
                        assert(ps@[i as int].0@ != ps@[j as int].0@);
                    }
                    if i < j {
                        let email = ps.remove(j).1;
                        let name = ps.remove(i).1;
                        Ok((name, email))
                    } else {
                        let name = ps.remove(i).1;
                        let email = ps.remove(j).1;
                        Ok((name, email))
                    }
                },
                (None, Some(_)) => Err(FormError::MissingName),
                (Some(_), None) => Err(FormError::MissingEmail),
                (None, None) => Err(FormError::MissingBoth),
            }
        },
    }
}

} // verus!
