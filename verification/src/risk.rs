//! The argument of the `ndpi-risk` keyword: either a decimal risk mask, or a
//! comma-separated list of risk codes that nDPI turns into risk numbers.
use vstd::prelude::*;

verus! {

/// The byte `,` that separates risk codes.
pub const COMMA: u8 = 44;

/// ASCII `0`.
pub const DIGIT_ZERO: u8 = 48;

/// ASCII `9`.
pub const DIGIT_NINE: u8 = 57;

/// Whether a byte is an ASCII decimal digit.
pub open spec fn is_digit(b: u8) -> bool {
    DIGIT_ZERO <= b <= DIGIT_NINE
}

/// Whether every byte of `s` is an ASCII decimal digit.
pub open spec fn all_digits(s: Seq<u8>) -> bool {
    forall|i: int| 0 <= i < s.len() ==> is_digit(#[trigger] s[i])
}

/// The number that a string of decimal digits spells, most significant first.
pub open spec fn decimal_value(s: Seq<u8>) -> nat
    decreases s.len(),
{
    if s.len() == 0 {
        0
    } else {
        decimal_value(s.drop_last()) * 10 + (s.last() - DIGIT_ZERO) as nat
    }
}

/// The token being read, as a list of zero or one finished tokens.
pub open spec fn close_token(cur: Seq<u8>) -> Seq<Seq<u8>> {
    if cur.len() == 0 {
        Seq::empty()
    } else {
        seq![cur]
    }
}

/// The non-empty comma-free runs of `cur + s`, in order, where `cur` holds
/// the bytes of the token read so far.
pub open spec fn tokens_from(s: Seq<u8>, cur: Seq<u8>) -> Seq<Seq<u8>>
    decreases s.len(),
{
    if s.len() == 0 {
        close_token(cur)
    } else if s[0] == COMMA {
        close_token(cur) + tokens_from(s.drop_first(), Seq::empty())
    } else {
        tokens_from(s.drop_first(), cur.push(s[0]))
    }
}

/// The risk codes named by a comma-separated list: its non-empty fields, in order.
pub open spec fn risk_tokens(s: Seq<u8>) -> Seq<Seq<u8>> {
    tokens_from(s, Seq::empty())
}

/// What a risk argument means.
pub enum RiskArgumentView {
    /// The argument is refused.
    Invalid,
    /// The argument is the risk mask itself, written in decimal.
    Mask(u64),
    /// The argument names risk codes, to be looked up one by one.
    Codes(Seq<Seq<u8>>),
}

/// The meaning of a risk argument: empty is refused; one that starts with a
/// digit must be a decimal number that fits in 64 bits; any other is a
/// comma-separated list of codes, refused if it holds a NUL byte (no C string
/// can be made of such a code).
pub open spec fn risk_argument(s: Seq<u8>) -> RiskArgumentView {
    if s.len() == 0 {
        RiskArgumentView::Invalid
    } else if is_digit(s[0]) {
        if all_digits(s) && decimal_value(s) <= u64::MAX {
            RiskArgumentView::Mask(decimal_value(s) as u64)
        } else {
            RiskArgumentView::Invalid
        }
    } else if s.contains(0u8) {
        RiskArgumentView::Invalid
    } else {
        RiskArgumentView::Codes(risk_tokens(s))
    }
}

/// A parsed risk argument.
pub enum RiskArgument {
    /// The argument is refused.
    Invalid,
    /// The risk mask, given in decimal.
    Mask(u64),
    /// The risk codes of a comma-separated list, in order, none empty.
    Codes(Vec<Vec<u8>>),
}

impl View for RiskArgument {
    type V = RiskArgumentView;

    open spec fn view(&self) -> RiskArgumentView {
        match self {
            RiskArgument::Invalid => RiskArgumentView::Invalid,
            RiskArgument::Mask(m) => RiskArgumentView::Mask(*m),
            RiskArgument::Codes(v) => RiskArgumentView::Codes(v@.map_values(|t: Vec<u8>| t@)),
        }
    }
}

/// The value of a digit string is at least the value of any of its prefixes.
proof fn lemma_decimal_prefix_le(s: Seq<u8>, i: int)
    requires
        all_digits(s),
        0 <= i <= s.len(),
    ensures
        decimal_value(s.take(i)) <= decimal_value(s),
    decreases s.len(),
{
    if i == s.len() {
        assert(s.take(i) =~= s);
    } else {
        let p = s.drop_last();
        assert(all_digits(p)) by {
            assert forall|j: int| 0 <= j < p.len() implies is_digit(#[trigger] p[j]) by {
                assert(p[j] == s[j]);
            }
        }
        lemma_decimal_prefix_le(p, i);
        assert(p.take(i) =~= s.take(i));
    }
}

/// Reads a string of decimal digits as a 64-bit number; `None` when a byte is
/// not a digit or the number does not fit.
fn parse_decimal(s: &[u8]) -> (r: Option<u64>)
    ensures
        r == (if all_digits(s@) && decimal_value(s@) <= u64::MAX {
            Some(decimal_value(s@) as u64)
        } else {
            None
        }),
{
    let mut v: u64 = 0;
    let mut i: usize = 0;
    while i < s.len()
        invariant
            0 <= i <= s.len(),
            all_digits(s@.take(i as int)),
            v == decimal_value(s@.take(i as int)),
        decreases s.len() - i,
    {
        let b = s[i];
        if b < DIGIT_ZERO || b > DIGIT_NINE {
            assert(!is_digit(s@[i as int]));
            return None;
        }
        let d = (b - DIGIT_ZERO) as u64;
        assert(s@.take(i + 1).drop_last() =~= s@.take(i as int));
        assert(all_digits(s@.take(i + 1))) by {
            assert forall|j: int| 0 <= j < i + 1 implies is_digit(#[trigger] s@.take(i + 1)[j]) by {
                if j < i {
                    assert(s@.take(i + 1)[j] == s@.take(i as int)[j]);
                }
            }
        }
        assert(decimal_value(s@.take(i + 1)) == v * 10 + d);
        let next = match v.checked_mul(10) {
            Some(t) => t.checked_add(d),
            None => None,
        };
        match next {
            Some(n) => {
                v = n;
            },
            None => {
                proof {
                    if all_digits(s@) {
                        lemma_decimal_prefix_le(s@, i + 1);
                    }
                }
                return None;
            },
        }
        i = i + 1;
    }
    assert(s@.take(s.len() as int) =~= s@);
    Some(v)
}

/// Whether some byte of `s` is NUL.
fn contains_nul(s: &[u8]) -> (r: bool)
    ensures
        r == s@.contains(0u8),
{
    let mut i: usize = 0;
    while i < s.len()
        invariant
            0 <= i <= s.len(),
            forall|j: int| 0 <= j < i ==> s@[j] != 0u8,
        decreases s.len() - i,
    {
        if s[i] == 0 {
            assert(s@[i as int] == 0u8);
            return true;
        }
        i = i + 1;
    }
    false
}

/// The tokens view of a vector of byte vectors.
pub open spec fn tokens_view(v: Seq<Vec<u8>>) -> Seq<Seq<u8>> {
    v.map_values(|t: Vec<u8>| t@)
}

/// Splits `s` at its commas and keeps the non-empty fields, in order.
fn split_risk_tokens(s: &[u8]) -> (r: Vec<Vec<u8>>)
    ensures
        tokens_view(r@) == risk_tokens(s@),
{
    let mut out: Vec<Vec<u8>> = Vec::new();
    let mut cur: Vec<u8> = Vec::new();
    let mut i: usize = 0;
    assert(s@.skip(0) =~= s@);
    assert(tokens_view(out@) =~= Seq::<Seq<u8>>::empty());
    while i < s.len()
        invariant
            0 <= i <= s.len(),
            tokens_view(out@) + tokens_from(s@.skip(i as int), cur@) == risk_tokens(s@),
        decreases s.len() - i,
    {
        let b = s[i];
        let ghost rest = s@.skip(i as int);
        let ghost before = tokens_view(out@);
        assert(rest.drop_first() =~= s@.skip(i + 1));
        assert(rest[0] == b);
        if b == COMMA {
            let tok = cur;
            cur = Vec::new();
            let ghost closed = close_token(tok@);
            assert(tokens_from(rest, tok@) == closed + tokens_from(s@.skip(i + 1), Seq::empty()));
            if tok.len() > 0 {
                out.push(tok);
                assert(tokens_view(out@) =~= before + closed);
            } else {
                assert(closed =~= Seq::<Seq<u8>>::empty());
                assert(before + closed =~= before);
            }
            assert(tokens_view(out@) + tokens_from(s@.skip(i + 1), cur@) =~= before + (closed
                + tokens_from(s@.skip(i + 1), Seq::empty())));
        } else {
            let ghost old_cur = cur@;
            cur.push(b);
            assert(tokens_from(rest, old_cur) == tokens_from(s@.skip(i + 1), cur@));
        }
        i = i + 1;
    }
    let ghost before = tokens_view(out@);
    assert(s@.skip(i as int) =~= Seq::<u8>::empty());
    if cur.len() > 0 {
        let ghost last = cur@;
        out.push(cur);
        assert(tokens_view(out@) =~= before + close_token(last));
    } else {
        assert(before + close_token(cur@) =~= before);
    }
    out
}

/// Parses the argument of the `ndpi-risk` keyword: a decimal risk mask when
/// it starts with a digit, otherwise a comma-separated list of risk codes.
pub fn parse_risk(arg: &[u8]) -> (r: RiskArgument)
    ensures
        r@ == risk_argument(arg@),
{
    if arg.len() == 0 {
        return RiskArgument::Invalid;
    }
    let first = arg[0];
    if DIGIT_ZERO <= first && first <= DIGIT_NINE {
        match parse_decimal(arg) {
            Some(m) => RiskArgument::Mask(m),
            None => RiskArgument::Invalid,
        }
    } else if contains_nul(arg) {
        RiskArgument::Invalid
    } else {
        let codes = split_risk_tokens(arg);
        RiskArgument::Codes(codes)
    }
}

/// The mask bit of risk number `id`.
pub open spec fn risk_bit(id: u32) -> u64 {
    1u64 << (id as u64)
}

/// The risk mask with the bit of each risk number of `ids` set.
pub open spec fn risk_bits(ids: Seq<u32>) -> u64
    decreases ids.len(),
{
    if ids.len() == 0 {
        0
    } else {
        risk_bits(ids.drop_last()) | risk_bit(ids.last())
    }
}

/// Whether every risk number of `ids` is below `max`.
pub open spec fn all_below(ids: Seq<u32>, max: u32) -> bool {
    forall|i: int| 0 <= i < ids.len() ==> #[trigger] ids[i] < max
}

/// The risk mask of the risk numbers that nDPI gave for a list of codes;
/// `None` when one of them is not a risk (`max_risk` or more).
pub fn risk_mask_from_ids(ids: &[u32], max_risk: u32) -> (r: Option<u64>)
    requires
        max_risk <= 64,
    ensures
        r == (if all_below(ids@, max_risk) {
            Some(risk_bits(ids@))
        } else {
            None
        }),
{
    let mut mask: u64 = 0;
    let mut i: usize = 0;
    assert(ids@.take(0) =~= Seq::<u32>::empty());
    while i < ids.len()
        invariant
            0 <= i <= ids.len(),
            max_risk <= 64,
            all_below(ids@.take(i as int), max_risk),
            mask == risk_bits(ids@.take(i as int)),
        decreases ids.len() - i,
    {
        let id = ids[i];
        if id >= max_risk {
            assert(!(ids@[i as int] < max_risk));
            return None;
        }
        assert(ids@.take(i + 1).drop_last() =~= ids@.take(i as int));
        assert(all_below(ids@.take(i + 1), max_risk)) by {
            assert forall|j: int| 0 <= j < i + 1 implies #[trigger] ids@.take(i + 1)[j]
                < max_risk by {
                if j < i {
                    assert(ids@.take(i + 1)[j] == ids@.take(i as int)[j]);
                }
            }
        }
        mask = mask | (1u64 << (id as u64));
        i = i + 1;
    }
    assert(ids@.take(ids.len() as int) =~= ids@);
    Some(mask)
}

/// The mask of a list of risk numbers has the bit of risk `k` set exactly
/// when `k` is in the list.
pub proof fn lemma_risk_bits_members(ids: Seq<u32>, k: u32)
    requires
        all_below(ids, 64),
        k < 64,
    ensures
        (risk_bits(ids) & risk_bit(k)) != 0 <==> ids.contains(k),
    decreases ids.len(),
{
    if ids.len() == 0 {
        let kk = k as u64;
        assert(0u64 & (1u64 << kk) == 0) by (bit_vector);
    } else {
        let p = ids.drop_last();
        let l = ids.last();
        assert(all_below(p, 64)) by {
            assert forall|i: int| 0 <= i < p.len() implies #[trigger] p[i] < 64 by {
                assert(p[i] == ids[i]);
            }
        }
        lemma_risk_bits_members(p, k);
        let a = risk_bits(p);
        let ll = l as u64;
        let kk = k as u64;
        assert(ll < 64);
        assert(((a | (1u64 << ll)) & (1u64 << kk)) != 0 <==> ((a & (1u64 << kk)) != 0 || ll
            == kk)) by (bit_vector)
            requires
                ll < 64,
                kk < 64,
        ;
        if p.contains(k) {
            let j = choose|j: int| 0 <= j < p.len() && p[j] == k;
            assert(ids[j] == k);
        }
        if l == k {
            assert(ids[ids.len() - 1] == k);
        }
        if ids.contains(k) {
            let j = choose|j: int| 0 <= j < ids.len() && ids[j] == k;
            if j < ids.len() - 1 {
                assert(p[j] == k);
            }
        }
    }
}

/// A flow risk covers the mask of a list of risk numbers exactly when it
/// carries the bit of every risk in the list.
pub proof fn lemma_risk_bits_covered(risk: u64, ids: Seq<u32>)
    requires
        all_below(ids, 64),
    ensures
        (risk & risk_bits(ids)) == risk_bits(ids) <==> (forall|i: int|
            0 <= i < ids.len() ==> (risk & risk_bit(#[trigger] ids[i])) != 0),
    decreases ids.len(),
{
    if ids.len() == 0 {
        assert(risk & 0u64 == 0u64) by (bit_vector);
    } else {
        let p = ids.drop_last();
        let l = ids.last();
        assert(all_below(p, 64)) by {
            assert forall|i: int| 0 <= i < p.len() implies #[trigger] p[i] < 64 by {
                assert(p[i] == ids[i]);
            }
        }
        lemma_risk_bits_covered(risk, p);
        let a = risk_bits(p);
        let ll = l as u64;
        assert(ll < 64);
        assert(((risk & (a | (1u64 << ll))) == (a | (1u64 << ll))) <==> ((risk & a) == a && (risk
            & (1u64 << ll)) != 0)) by (bit_vector)
            requires
                ll < 64,
        ;
        if forall|i: int| 0 <= i < ids.len() ==> (risk & risk_bit(#[trigger] ids[i])) != 0 {
            assert forall|i: int| 0 <= i < p.len() implies (risk & risk_bit(#[trigger] p[i]))
                != 0 by {
                assert(p[i] == ids[i]);
            }
            assert(ids[ids.len() - 1] == l);
        }
        if (risk & a) == a && (risk & risk_bit(l)) != 0 {
            assert forall|i: int| 0 <= i < ids.len() implies (risk & risk_bit(#[trigger] ids[i]))
                != 0 by {
                if i < ids.len() - 1 {
                    assert(ids[i] == p[i]);
                }
            }
        }
    }
}

/// The mask of the `n` low bits of a 64-bit word.
pub open spec fn low_mask(n: u64) -> u64 {
    if n >= 64 {
        u64::MAX
    } else {
        ((1u64 << n) - 1) as u64
    }
}

/// Two words whose `n` low bits agree one by one are equal on those bits.
proof fn lemma_low_bits_agree(a: u64, b: u64, n: u64)
    requires
        n <= 64,
        forall|k: u64| k < n ==> ((a & (1u64 << k)) != 0) == ((b & (1u64 << k)) != 0),
    ensures
        (a & low_mask(n)) == (b & low_mask(n)),
    decreases n,
{
    if n == 0 {
        assert((a & 0u64) == (b & 0u64)) by (bit_vector);
        assert(low_mask(0) == 0) by {
            assert(((1u64 << 0u64) - 1) as u64 == 0u64) by (bit_vector);
        }
    } else {
        let j = (n - 1) as u64;
        lemma_low_bits_agree(a, b, j);
        let m = low_mask(j);
        assert(((a & (1u64 << j)) != 0) == ((b & (1u64 << j)) != 0));
        assert(m == ((1u64 << j) - 1) as u64);
        if n == 64 {
            assert((a & m) == (b & m) && ((a & (1u64 << j)) != 0) == ((b & (1u64 << j)) != 0)
                ==> a == b) by (bit_vector)
                requires
                    j == 63u64,
                    m == ((1u64 << j) - 1) as u64,
            ;
            assert((a & u64::MAX) == a && (b & u64::MAX) == b) by (bit_vector);
        } else {
            let m2 = low_mask(n);
            assert(m2 == ((1u64 << n) - 1) as u64);
            assert((a & m) == (b & m) && ((a & (1u64 << j)) != 0) == ((b & (1u64 << j)) != 0)
                ==> (a & m2) == (b & m2)) by (bit_vector)
                requires
                    j < 63u64,
                    n == j + 1,
                    m == ((1u64 << j) - 1) as u64,
                    m2 == ((1u64 << n) - 1) as u64,
            ;
        }
    }
}

/// The risk mask of a list depends only on which risks it names, not on
/// their order or repetition.
pub proof fn lemma_risk_bits_set_only(ids1: Seq<u32>, ids2: Seq<u32>)
    requires
        all_below(ids1, 64),
        all_below(ids2, 64),
        forall|k: u32| ids1.contains(k) <==> ids2.contains(k),
    ensures
        risk_bits(ids1) == risk_bits(ids2),
{
    let a = risk_bits(ids1);
    let b = risk_bits(ids2);
    assert forall|k: u64| k < 64 implies ((a & (1u64 << k)) != 0) == ((b & (1u64 << k)) != 0) by {
        let k32 = k as u32;
        assert(k32 as u64 == k);
        lemma_risk_bits_members(ids1, k32);
        lemma_risk_bits_members(ids2, k32);
    }
    lemma_low_bits_agree(a, b, 64);
    assert((a & u64::MAX) == a && (b & u64::MAX) == b) by (bit_vector);
}

/// Every code that `tokens_from` yields is non-empty and holds no comma,
/// given that the pending bytes hold none.
proof fn lemma_tokens_from_well_formed(s: Seq<u8>, cur: Seq<u8>)
    requires
        !cur.contains(COMMA),
    ensures
        forall|i: int|
            0 <= i < tokens_from(s, cur).len() ==> #[trigger] tokens_from(s, cur)[i].len() > 0
                && !tokens_from(s, cur)[i].contains(COMMA),
    decreases s.len(),
{
    if s.len() == 0 {
        assert(tokens_from(s, cur) == close_token(cur));
    } else if s[0] == COMMA {
        lemma_tokens_from_well_formed(s.drop_first(), Seq::empty());
        let c = close_token(cur);
        let t = tokens_from(s.drop_first(), Seq::empty());
        assert(tokens_from(s, cur) == c + t);
        assert forall|i: int| 0 <= i < (c + t).len() implies #[trigger] (c + t)[i].len() > 0
            && !(c + t)[i].contains(COMMA) by {
            if i >= c.len() {
                assert((c + t)[i] == t[i - c.len()]);
            }
        }
    } else {
        let next = cur.push(s[0]);
        assert(!next.contains(COMMA)) by {
            if next.contains(COMMA) {
                let j = choose|j: int| 0 <= j < next.len() && next[j] == COMMA;
                if j < cur.len() {
                    assert(cur[j] == COMMA);
                }
            }
        }
        lemma_tokens_from_well_formed(s.drop_first(), next);
        assert(tokens_from(s, cur) == tokens_from(s.drop_first(), next));
    }
}

/// The codes of a list are non-empty and hold no comma.
pub proof fn lemma_risk_tokens_well_formed(s: Seq<u8>)
    ensures
        forall|i: int|
            0 <= i < risk_tokens(s).len() ==> #[trigger] risk_tokens(s)[i].len() > 0
                && !risk_tokens(s)[i].contains(COMMA),
{
    lemma_tokens_from_well_formed(s, Seq::empty());
}

/// What the plugin makes of a risk argument, given `lookup`, the risk number
/// that nDPI gives each code: the mask of a decimal argument; for a list of
/// codes, the mask of their risk numbers when all are below `max_risk`;
/// otherwise nothing. This is `parse_risk` followed, for a list, by
/// `risk_mask_from_ids` on the looked-up numbers.
pub open spec fn resolve_risk(s: Seq<u8>, lookup: spec_fn(Seq<u8>) -> u32, max_risk: u32) -> Option<
    u64,
> {
    match risk_argument(s) {
        RiskArgumentView::Invalid => None,
        RiskArgumentView::Mask(m) => Some(m),
        RiskArgumentView::Codes(codes) => {
            let ids = codes.map_values(lookup);
            if all_below(ids, max_risk) {
                Some(risk_bits(ids))
            } else {
                None
            }
        },
    }
}

/// Two lists of codes that name the same codes resolve alike, whatever
/// their order or repetitions.
pub proof fn lemma_resolve_depends_on_codes_only(
    s1: Seq<u8>,
    s2: Seq<u8>,
    lookup: spec_fn(Seq<u8>) -> u32,
    max_risk: u32,
)
    requires
        max_risk <= 64,
        risk_argument(s1) is Codes,
        risk_argument(s2) is Codes,
        forall|t: Seq<u8>| risk_tokens(s1).contains(t) <==> risk_tokens(s2).contains(t),
    ensures
        resolve_risk(s1, lookup, max_risk) == resolve_risk(s2, lookup, max_risk),
{
    let t1 = risk_tokens(s1);
    let t2 = risk_tokens(s2);
    let ids1 = t1.map_values(lookup);
    let ids2 = t2.map_values(lookup);
    assert forall|k: u32| ids1.contains(k) implies ids2.contains(k) by {
        let i = choose|i: int| 0 <= i < ids1.len() && ids1[i] == k;
        assert(t1.contains(t1[i]));
        let j = choose|j: int| 0 <= j < t2.len() && t2[j] == t1[i];
        assert(ids2[j] == k);
    }
    assert forall|k: u32| ids2.contains(k) implies ids1.contains(k) by {
        let i = choose|i: int| 0 <= i < ids2.len() && ids2[i] == k;
        assert(t2.contains(t2[i]));
        let j = choose|j: int| 0 <= j < t1.len() && t1[j] == t2[i];
        assert(ids1[j] == k);
    }
    if all_below(ids1, max_risk) {
        assert(all_below(ids2, max_risk)) by {
            assert forall|i: int| 0 <= i < ids2.len() implies #[trigger] ids2[i] < max_risk by {
                assert(ids2.contains(ids2[i]));
                let j = choose|j: int| 0 <= j < ids1.len() && ids1[j] == ids2[i];
            }
        }
        assert(all_below(ids1, 64));
        assert(all_below(ids2, 64));
        lemma_risk_bits_set_only(ids1, ids2);
    } else {
        assert(!all_below(ids2, max_risk)) by {
            let i = choose|i: int| 0 <= i < ids1.len() && !(ids1[i] < max_risk);
            assert(ids1.contains(ids1[i]));
            let j = choose|j: int| 0 <= j < ids2.len() && ids2[j] == ids1[i];
        }
    }
}

/// A run of bytes without commas extends the code being read.
proof fn lemma_tokens_from_run(a: Seq<u8>, rest: Seq<u8>, cur: Seq<u8>)
    requires
        !a.contains(COMMA),
    ensures
        tokens_from(a + rest, cur) == tokens_from(rest, cur + a),
    decreases a.len(),
{
    if a.len() == 0 {
        assert(a + rest =~= rest);
        assert(cur + a =~= cur);
    } else {
        let s = a + rest;
        assert(s[0] == a[0]);
        assert(a[0] != COMMA) by {
            if a[0] == COMMA {
                assert(a.contains(COMMA));
            }
        }
        let a1 = a.drop_first();
        assert(!a1.contains(COMMA)) by {
            if a1.contains(COMMA) {
                let j = choose|j: int| 0 <= j < a1.len() && a1[j] == COMMA;
                assert(a[j + 1] == COMMA);
            }
        }
        assert(s.drop_first() =~= a1 + rest);
        lemma_tokens_from_run(a1, rest, cur.push(a[0]));
        assert(cur.push(a[0]) + a1 =~= cur + a);
    }
}

/// A comma ends the code being read.
proof fn lemma_tokens_from_comma(rest: Seq<u8>, cur: Seq<u8>)
    ensures
        tokens_from(seq![COMMA] + rest, cur) == close_token(cur) + tokens_from(rest, Seq::empty()),
{
    let s = seq![COMMA] + rest;
    assert(s[0] == COMMA);
    assert(s.drop_first() =~= rest);
}

/// Whether `a` can stand as a code in a list written by hand: non-empty,
/// without comma or NUL, and not starting with a digit.
pub open spec fn plain_code(a: Seq<u8>) -> bool {
    &&& a.len() > 0
    &&& !a.contains(COMMA)
    &&& !a.contains(0u8)
    &&& !is_digit(a[0])
}

/// Neither part of a concatenation holds `x`, so the whole does not.
proof fn lemma_concat_lacks(a: Seq<u8>, b: Seq<u8>, x: u8)
    requires
        !a.contains(x),
        !b.contains(x),
    ensures
        !(a + b).contains(x),
{
    if (a + b).contains(x) {
        let j = choose|j: int| 0 <= j < (a + b).len() && (a + b)[j] == x;
        if j < a.len() {
            assert(a[j] == x);
        } else {
            assert(b[j - a.len()] == x);
        }
    }
}

/// The codes of a single plain code, with a comma-separated tail.
proof fn lemma_tokens_of_code_then(a: Seq<u8>, rest: Seq<u8>)
    requires
        plain_code(a),
    ensures
        tokens_from(a + (seq![COMMA] + rest), Seq::empty()) == seq![a] + tokens_from(
            rest,
            Seq::empty(),
        ),
        tokens_from(a, Seq::empty()) == seq![a],
{
    lemma_tokens_from_run(a, seq![COMMA] + rest, Seq::empty());
    assert(Seq::<u8>::empty() + a =~= a);
    lemma_tokens_from_comma(rest, a);
    lemma_tokens_from_run(a, Seq::empty(), Seq::empty());
    assert(a + Seq::<u8>::empty() =~= a);
}

/// The order of the codes of a list, their repetition and empty fields do
/// not change what a risk argument resolves to: for plain codes `a` and `b`,
/// "a,b" and "b,a" resolve alike, as do "a,a" and "a", "a,,b" and "a,b",
/// ",a," and "a".
pub proof fn lemma_risk_argument_order_free(
    a: Seq<u8>,
    b: Seq<u8>,
    lookup: spec_fn(Seq<u8>) -> u32,
    max_risk: u32,
)
    requires
        plain_code(a),
        plain_code(b),
        max_risk <= 64,
    ensures
        resolve_risk(a + seq![COMMA] + b, lookup, max_risk) == resolve_risk(
            b + seq![COMMA] + a,
            lookup,
            max_risk,
        ),
        resolve_risk(a + seq![COMMA] + a, lookup, max_risk) == resolve_risk(a, lookup, max_risk),
        resolve_risk(a + seq![COMMA, COMMA] + b, lookup, max_risk) == resolve_risk(
            a + seq![COMMA] + b,
            lookup,
            max_risk,
        ),
        resolve_risk(seq![COMMA] + a + seq![COMMA], lookup, max_risk) == resolve_risk(
            a,
            lookup,
            max_risk,
        ),
{
    let c = seq![COMMA];
    let cc = seq![COMMA, COMMA];
    assert(!c.contains(0u8)) by {
        if c.contains(0u8) {
            let j = choose|j: int| 0 <= j < c.len() && c[j] == 0u8;
            assert(c[j] == COMMA);
        }
    }
    assert(!cc.contains(0u8)) by {
        if cc.contains(0u8) {
            let j = choose|j: int| 0 <= j < cc.len() && cc[j] == 0u8;
            assert(cc[j] == COMMA);
        }
    }
    // the arguments, written as a code followed by the rest
    let ab = a + c + b;
    let ba = b + c + a;
    let aa = a + c + a;
    let accb = a + cc + b;
    let cac = c + a + c;
    assert(ab =~= a + (c + b));
    assert(ba =~= b + (c + a));
    assert(aa =~= a + (c + a));
    assert(accb =~= a + (c + (c + b)));
    assert(cac =~= c + (a + (c + Seq::empty())));
    // no NUL anywhere
    lemma_concat_lacks(c, b, 0u8);
    lemma_concat_lacks(a, c + b, 0u8);
    lemma_concat_lacks(c, a, 0u8);
    lemma_concat_lacks(b, c + a, 0u8);
    lemma_concat_lacks(c, c + b, 0u8);
    lemma_concat_lacks(a, c + (c + b), 0u8);
    lemma_concat_lacks(c, Seq::<u8>::empty(), 0u8);
    lemma_concat_lacks(a, c + Seq::<u8>::empty(), 0u8);
    lemma_concat_lacks(c, a + (c + Seq::<u8>::empty()), 0u8);
    // first bytes
    assert(ab[0] == a[0] && ba[0] == b[0] && aa[0] == a[0] && accb[0] == a[0]);
    assert(cac[0] == COMMA);
    // the codes of each argument
    lemma_tokens_of_code_then(a, b);
    lemma_tokens_of_code_then(b, Seq::empty());
    lemma_tokens_of_code_then(b, a);
    lemma_tokens_of_code_then(a, Seq::empty());
    lemma_tokens_of_code_then(a, a);
    lemma_tokens_from_comma(b, Seq::empty());
    lemma_tokens_of_code_then(a, c + b);
    lemma_tokens_from_comma(a + (c + Seq::empty()), Seq::empty());
    lemma_tokens_of_code_then(a, Seq::empty());
    assert(a + (c + Seq::<u8>::empty()) =~= a + (seq![COMMA] + Seq::<u8>::empty()));
    assert(tokens_from(Seq::<u8>::empty(), Seq::empty()) =~= Seq::<Seq<u8>>::empty());
    let tab = risk_tokens(ab);
    let tba = risk_tokens(ba);
    let taa = risk_tokens(aa);
    let ta = risk_tokens(a);
    let taccb = risk_tokens(accb);
    let tcac = risk_tokens(cac);
    assert(tab =~= seq![a, b]);
    assert(tba =~= seq![b, a]);
    assert(taa =~= seq![a, a]);
    assert(ta =~= seq![a]);
    assert(close_token(Seq::<u8>::empty()) =~= Seq::<Seq<u8>>::empty());
    assert(taccb =~= seq![a, b]);
    assert(tcac =~= seq![a]);
    // each pair names the same codes
    assert forall|t: Seq<u8>| tab.contains(t) <==> tba.contains(t) by {
        if tab.contains(t) {
            let j = choose|j: int| 0 <= j < tab.len() && tab[j] == t;
            if j == 0 {
                assert(tba[1] == t);
            } else {
                assert(tba[0] == t);
            }
        }
        if tba.contains(t) {
            let j = choose|j: int| 0 <= j < tba.len() && tba[j] == t;
            if j == 0 {
                assert(tab[1] == t);
            } else {
                assert(tab[0] == t);
            }
        }
    }
    assert forall|t: Seq<u8>| taa.contains(t) <==> ta.contains(t) by {
        if taa.contains(t) {
            let j = choose|j: int| 0 <= j < taa.len() && taa[j] == t;
            assert(ta[0] == t);
        }
        if ta.contains(t) {
            assert(taa[0] == t);
        }
    }
    lemma_resolve_depends_on_codes_only(ab, ba, lookup, max_risk);
    lemma_resolve_depends_on_codes_only(aa, a, lookup, max_risk);
    assert(risk_argument(accb) == risk_argument(ab));
    assert(risk_argument(cac) == risk_argument(a));
}

/// Decimal digits are read in base 10, leading zeros included: appending a
/// digit multiplies the value by ten and adds the digit.
pub proof fn lemma_decimal_step(s: Seq<u8>, d: u8)
    requires
        is_digit(d),
    ensures
        decimal_value(s.push(d)) == 10 * decimal_value(s) + (d - DIGIT_ZERO),
        decimal_value(seq![d]) == d - DIGIT_ZERO,
        decimal_value(seq![DIGIT_ZERO].add(s)) == decimal_value(s),
    decreases s.len(),
{
    assert(s.push(d).drop_last() =~= s);
    assert(seq![d].drop_last() =~= Seq::<u8>::empty());
    assert(decimal_value(Seq::<u8>::empty()) == 0);
    assert(seq![d].last() == d);
    assert(decimal_value(seq![d]) == decimal_value(seq![d].drop_last()) * 10 + (d - DIGIT_ZERO) as nat);
    lemma_leading_zero(s);
}

/// A leading zero does not change the value of a digit string.
proof fn lemma_leading_zero(s: Seq<u8>)
    ensures
        decimal_value(seq![DIGIT_ZERO].add(s)) == decimal_value(s),
    decreases s.len(),
{
    let z = seq![DIGIT_ZERO].add(s);
    if s.len() == 0 {
        assert(z =~= seq![DIGIT_ZERO]);
        assert(z.drop_last() =~= Seq::<u8>::empty());
        assert(decimal_value(Seq::<u8>::empty()) == 0);
        assert(z.last() == DIGIT_ZERO);
        assert(decimal_value(z) == decimal_value(z.drop_last()) * 10 + (z.last() - DIGIT_ZERO) as nat);
    } else {
        lemma_leading_zero(s.drop_last());
        assert(z.drop_last() =~= seq![DIGIT_ZERO].add(s.drop_last()));
        assert(z.last() == s.last());
    }
}

/// A decimal risk argument is read in base 10: a single digit is its own
/// value, a leading zero changes nothing, and appending a digit to an
/// argument that still fits gives ten times its mask plus the digit.
pub proof fn lemma_decimal_argument(s: Seq<u8>, d: u8)
    requires
        s.len() > 0,
        all_digits(s),
        is_digit(d),
    ensures
        risk_argument(seq![d]) == RiskArgumentView::Mask((d - DIGIT_ZERO) as u64),
        (risk_argument(s.push(d)) matches RiskArgumentView::Mask(m2) ==> (risk_argument(
            s,
        ) matches RiskArgumentView::Mask(m) && m2 == 10 * m + (d - DIGIT_ZERO))),
        risk_argument(seq![DIGIT_ZERO].add(s)) == risk_argument(s),
{
    lemma_decimal_step(s, d);
    let t = s.push(d);
    assert(all_digits(t)) by {
        assert forall|i: int| 0 <= i < t.len() implies is_digit(#[trigger] t[i]) by {
            if i < s.len() {
                assert(t[i] == s[i]);
            }
        }
    }
    assert(t[0] == s[0]);
    assert(all_digits(seq![d])) by {
        assert forall|i: int| 0 <= i < 1 implies is_digit(#[trigger] seq![d][i]) by {}
    }
    let z = seq![DIGIT_ZERO].add(s);
    assert(z[0] == DIGIT_ZERO);
    assert(all_digits(z)) by {
        assert forall|i: int| 0 <= i < z.len() implies is_digit(#[trigger] z[i]) by {
            if i > 0 {
                assert(z[i] == s[i - 1]);
            }
        }
    }
    if all_digits(s) {
        assert(decimal_value(s) <= decimal_value(t));
    }
}

/// Splitting is compositional at a comma: the pending code is finished by the
/// comma, and what follows splits on its own.
proof fn lemma_tokens_from_concat(s1: Seq<u8>, s2: Seq<u8>, cur: Seq<u8>)
    ensures
        tokens_from(s1 + (seq![COMMA] + s2), cur) == tokens_from(s1, cur) + tokens_from(
            s2,
            Seq::empty(),
        ),
    decreases s1.len(),
{
    let s = s1 + (seq![COMMA] + s2);
    if s1.len() == 0 {
        assert(s =~= seq![COMMA] + s2);
        lemma_tokens_from_comma(s2, cur);
    } else {
        assert(s[0] == s1[0]);
        assert(s.drop_first() =~= s1.drop_first() + (seq![COMMA] + s2));
        if s1[0] == COMMA {
            lemma_tokens_from_concat(s1.drop_first(), s2, Seq::empty());
            assert(tokens_from(s, cur) == close_token(cur) + tokens_from(
                s1.drop_first() + (seq![COMMA] + s2),
                Seq::empty(),
            ));
            assert(tokens_from(s1, cur) == close_token(cur) + tokens_from(
                s1.drop_first(),
                Seq::empty(),
            ));
            assert(close_token(cur) + (tokens_from(s1.drop_first(), Seq::empty()) + tokens_from(
                s2,
                Seq::empty(),
            )) =~= (close_token(cur) + tokens_from(s1.drop_first(), Seq::empty()))
                + tokens_from(s2, Seq::empty()));
        } else {
            lemma_tokens_from_concat(s1.drop_first(), s2, cur.push(s1[0]));
        }
    }
}

/// The codes of two lists joined by a comma are the codes of the first list
/// followed by those of the second; a code without commas is its own list
/// when not empty, and no code at all when empty.
pub proof fn lemma_risk_tokens_concat(s1: Seq<u8>, s2: Seq<u8>)
    ensures
        risk_tokens(s1 + seq![COMMA] + s2) == risk_tokens(s1) + risk_tokens(s2),
        !s1.contains(COMMA) && s1.len() > 0 ==> risk_tokens(s1) == seq![s1],
        risk_tokens(Seq::empty()) == Seq::<Seq<u8>>::empty(),
{
    assert(s1 + seq![COMMA] + s2 =~= s1 + (seq![COMMA] + s2));
    lemma_tokens_from_concat(s1, s2, Seq::empty());
    assert(close_token(Seq::<u8>::empty()) =~= Seq::<Seq<u8>>::empty());
    if !s1.contains(COMMA) && s1.len() > 0 {
        lemma_tokens_from_run(s1, Seq::empty(), Seq::empty());
        assert(s1 + Seq::<u8>::empty() =~= s1);
        assert(Seq::<u8>::empty() + s1 =~= s1);
    }
}

/// A list of risk numbers resolves exactly when every number in it is below
/// the number of risks: one number at or above it spoils the list.
pub proof fn lemma_all_below(ids: Seq<u32>, max: u32, k: u32)
    ensures
        ids.contains(k) && k >= max ==> !all_below(ids, max),
        (forall|i: int| 0 <= i < ids.len() ==> ids[i] < max) ==> all_below(ids, max),
        all_below(ids, max) ==> (forall|j: u32| ids.contains(j) ==> j < max),
{
    if ids.contains(k) && k >= max {
        let i = choose|i: int| 0 <= i < ids.len() && ids[i] == k;
        assert(!(ids[i] < max));
    }
}

/// What each shape of risk argument means: the empty argument is refused; one
/// starting with a digit is the mask its digits spell when they are all
/// digits and the number fits in 64 bits, and is refused otherwise; any other
/// is refused when it holds a NUL byte and otherwise names its codes.
pub proof fn lemma_risk_argument_shapes(s: Seq<u8>)
    ensures
        s.len() == 0 ==> risk_argument(s) is Invalid,
        s.len() > 0 && is_digit(s[0]) && !all_digits(s) ==> risk_argument(s) is Invalid,
        s.len() > 0 && all_digits(s) && decimal_value(s) > u64::MAX ==> risk_argument(s) is Invalid,
        s.len() > 0 && all_digits(s) && decimal_value(s) <= u64::MAX ==> risk_argument(s)
            == RiskArgumentView::Mask(decimal_value(s) as u64),
        s.len() > 0 && !is_digit(s[0]) && s.contains(0u8) ==> risk_argument(s) is Invalid,
        s.len() > 0 && !is_digit(s[0]) && !s.contains(0u8) ==> risk_argument(s)
            == RiskArgumentView::Codes(risk_tokens(s)),
{
}

} // verus!
