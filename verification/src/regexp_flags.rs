//! Regular expression flags: the letters `d g i m s u v y`, each at most
//! once, kept as one bit each (`g` 1, `i` 2, `m` 4, `s` 8, `u` 16, `y` 32,
//! `d` 64, `v` 128).
use vstd::prelude::*;

verus! {

/// The bit of a flag letter; 0 for any other character.
pub open spec fn flag_bit(c: char) -> u32 {
    match c {
        'g' => 1,
        'i' => 2,
        'm' => 4,
        's' => 8,
        'u' => 16,
        'y' => 32,
        'd' => 64,
        'v' => 128,
        _ => 0,
    }
}

/// Why a flags string is refused (each a SyntaxError).
#[derive(Clone, Copy, Debug, PartialEq, Eq, Structural)]
pub enum FlagError {
    /// A character that is not a flag letter.
    Invalid,
    /// A flag letter given twice.
    Duplicate,
}

/// Reading the flags `s[i..]` with the bits `seen` already set: the first
/// character that is not a flag letter, or repeats one, refuses the string.
pub open spec fn parse_flags_from(s: Seq<char>, i: int, seen: u32) -> Result<u32, FlagError>
    decreases s.len() - i,
{
    if i < 0 || i >= s.len() {
        Ok(seen)
    } else if flag_bit(s[i]) == 0 {
        Err(FlagError::Invalid)
    } else if seen & flag_bit(s[i]) != 0 {
        Err(FlagError::Duplicate)
    } else {
        parse_flags_from(s, i + 1, seen | flag_bit(s[i]))
    }
}

/// The bits of the flags string `s`, or why it is refused.
pub open spec fn parse_flags_spec(s: Seq<char>) -> Result<u32, FlagError> {
    parse_flags_from(s, 0, 0)
}

/// The letter `c` if `bit` is set in `bits`, else nothing.
pub open spec fn letter_if(bits: u32, bit: u32, c: char) -> Seq<char> {
    if bits & bit != 0 {
        seq![c]
    } else {
        Seq::empty()
    }
}

/// The flags string of `bits`: its letters in the order `gimsuydv`.
pub open spec fn flags_text_spec(bits: u32) -> Seq<char> {
    letter_if(bits, 1, 'g') + letter_if(bits, 2, 'i') + letter_if(bits, 4, 'm') + letter_if(bits, 8, 's')
        + letter_if(bits, 16, 'u') + letter_if(bits, 32, 'y') + letter_if(bits, 64, 'd') + letter_if(
        bits,
        128,
        'v',
    )
}

/// The message of the SyntaxError a refused flags string throws.
pub open spec fn flag_error_message(e: FlagError) -> Seq<char> {
    match e {
        FlagError::Invalid => "SyntaxError: Invalid regular expression flags"@,
        FlagError::Duplicate => "SyntaxError: Duplicate regular expression flag"@,
    }
}

impl FlagError {
    /// The message of the SyntaxError this refusal throws.
    pub fn message(&self) -> (r: &'static str)
        ensures
            r@ == flag_error_message(*self),
    {
        match self {
            FlagError::Invalid => "SyntaxError: Invalid regular expression flags",
            FlagError::Duplicate => "SyntaxError: Duplicate regular expression flag",
        }
    }
}

proof fn lemma_parse_shift(a: Seq<char>, t: Seq<char>, j: int, seen: u32)
    requires
        0 <= j,
    ensures
        parse_flags_from(a + t, a.len() + j, seen) == parse_flags_from(t, j, seen),
    decreases t.len() - j,
{
    if j < t.len() {
        assert((a + t)[a.len() + j] == t[j]);
        lemma_parse_shift(a, t, j + 1, seen | flag_bit(t[j]));
    }
}

proof fn lemma_parse_concat(a: Seq<char>, t: Seq<char>, i: int, seen: u32)
    requires
        0 <= i <= a.len(),
    ensures
        parse_flags_from(a + t, i, seen) == (match parse_flags_from(a, i, seen) {
            Ok(x) => parse_flags_from(t, 0, x),
            Err(e) => Err(e),
        }),
    decreases a.len() - i,
{
    if i == a.len() {
        lemma_parse_shift(a, t, 0, seen);
    } else {
        assert((a + t)[i] == a[i]);
        lemma_parse_concat(a, t, i + 1, seen | flag_bit(a[i]));
    }
}

/// One letter of the canonical text, read with the lower bits of `b`
/// already set, sets its own bit when `b` has it.
proof fn lemma_segment(b: u32, m: u32, bit: u32, c: char)
    requires
        flag_bit(c) == bit,
        (m == 0 && bit == 1) || (m == 1 && bit == 2) || (m == 3 && bit == 4) || (m == 7 && bit == 8) || (m
            == 15 && bit == 16) || (m == 31 && bit == 32) || (m == 63 && bit == 64) || (m == 127 && bit
            == 128),
    ensures
        parse_flags_from(letter_if(b, bit, c), 0, b & m) == Ok::<u32, FlagError>(b & (m | bit)),
{
    assert({
        &&& (b & m) & bit == 0
        &&& (b & bit != 0 ==> (b & m) | bit == b & (m | bit))
        &&& (b & bit == 0 ==> b & m == b & (m | bit))
    }) by (bit_vector)
        requires
            (m == 0 && bit == 1) || (m == 1 && bit == 2) || (m == 3 && bit == 4) || (m == 7 && bit == 8)
                || (m == 15 && bit == 16) || (m == 31 && bit == 32) || (m == 63 && bit == 64) || (m == 127
                && bit == 128),
    ;
    if b & bit != 0 {
        assert(parse_flags_from(seq![c], 1, (b & m) | bit) == Ok::<u32, FlagError>((b & m) | bit));
    }
}

/// Reading back the canonical flags string of any bits gives those bits
/// (those of the eight flags).
pub proof fn law_flags_text_parses_back(b: u32)
    ensures
        parse_flags_spec(flags_text_spec(b)) == Ok::<u32, FlagError>(b & 255),
{
    let l1 = letter_if(b, 1, 'g');
    let l2 = letter_if(b, 2, 'i');
    let l3 = letter_if(b, 4, 'm');
    let l4 = letter_if(b, 8, 's');
    let l5 = letter_if(b, 16, 'u');
    let l6 = letter_if(b, 32, 'y');
    let l7 = letter_if(b, 64, 'd');
    let l8 = letter_if(b, 128, 'v');
    assert(b & 0 == 0) by (bit_vector);
    assert(0u32 | 1 == 1 && 1u32 | 2 == 3 && 3u32 | 4 == 7 && 7u32 | 8 == 15 && 15u32 | 16 == 31 && 31u32
        | 32 == 63 && 63u32 | 64 == 127 && 127u32 | 128 == 255) by (bit_vector);
    lemma_segment(b, 0, 1, 'g');
    lemma_segment(b, 1, 2, 'i');
    lemma_segment(b, 3, 4, 'm');
    lemma_segment(b, 7, 8, 's');
    lemma_segment(b, 15, 16, 'u');
    lemma_segment(b, 31, 32, 'y');
    lemma_segment(b, 63, 64, 'd');
    lemma_segment(b, 127, 128, 'v');
    lemma_parse_concat(l1, l2, 0, 0);
    lemma_parse_concat(l1 + l2, l3, 0, 0);
    lemma_parse_concat(l1 + l2 + l3, l4, 0, 0);
    lemma_parse_concat(l1 + l2 + l3 + l4, l5, 0, 0);
    lemma_parse_concat(l1 + l2 + l3 + l4 + l5, l6, 0, 0);
    lemma_parse_concat(l1 + l2 + l3 + l4 + l5 + l6, l7, 0, 0);
    lemma_parse_concat(l1 + l2 + l3 + l4 + l5 + l6 + l7, l8, 0, 0);
}

/// The first `i` characters of `s` are flag letters, no two the same.
pub open spec fn valid_prefix(s: Seq<char>, i: int) -> bool {
    &&& forall|k: int| 0 <= k < i ==> flag_bit(#[trigger] s[k]) != 0
    &&& forall|k: int, l: int| 0 <= k < l < i ==> #[trigger] s[k] != #[trigger] s[l]
}

/// The bits of the first `i` characters of `s`.
pub open spec fn bits_of(s: Seq<char>, i: int) -> u32
    decreases i,
{
    if i <= 0 {
        0
    } else {
        bits_of(s, i - 1) | flag_bit(s[i - 1])
    }
}

/// The letter `c` occurs among the first `i` characters of `s`.
pub open spec fn occurs_before(s: Seq<char>, i: int, c: char) -> bool {
    exists|k: int| 0 <= k < i && #[trigger] s[k] == c
}

proof fn lemma_bits_of(s: Seq<char>, i: int)
    requires
        0 <= i <= s.len(),
        valid_prefix(s, i),
    ensures
        bits_of(s, i) < 256,
        forall|c: char| flag_bit(c) != 0 ==> ((bits_of(s, i) & #[trigger] flag_bit(c) != 0) <==> occurs_before(s, i, c)),
    decreases i,
{
    if i > 0 {
        lemma_bits_of(s, i - 1);
        let x = bits_of(s, i - 1);
        let p = flag_bit(s[i - 1]);
        assert forall|c: char| flag_bit(c) != 0 implies ((bits_of(s, i) & #[trigger] flag_bit(c) != 0) <==> occurs_before(s, i, c)) by {
            let q = flag_bit(c);
            assert(((x | p) & q != 0) == (x & q != 0 || p == q)) by (bit_vector)
                requires
                    p == 1 || p == 2 || p == 4 || p == 8 || p == 16 || p == 32 || p == 64 || p == 128,
                    q == 1 || q == 2 || q == 4 || q == 8 || q == 16 || q == 32 || q == 64 || q == 128,
            ;
            if occurs_before(s, i, c) {
                let k = choose|k: int| 0 <= k < i && #[trigger] s[k] == c;
                if k < i - 1 {
                    assert(occurs_before(s, i - 1, c));
                }
            }
            if occurs_before(s, i - 1, c) {
                let k = choose|k: int| 0 <= k < i - 1 && #[trigger] s[k] == c;
                assert(s[k] == c);
            }
            if p == q {
                assert(s[i - 1] == c);
            }
        }
        assert(x | p < 256) by (bit_vector)
            requires
                x < 256,
                p == 1 || p == 2 || p == 4 || p == 8 || p == 16 || p == 32 || p == 64 || p == 128,
        ;
    } else {
        assert forall|c: char| flag_bit(c) != 0 implies ((bits_of(s, i) & #[trigger] flag_bit(c) != 0) <==> occurs_before(s, i, c)) by {
            let q = flag_bit(c);
            assert(0u32 & q == 0) by (bit_vector);
        }
    }
}

proof fn lemma_parse_prefix(s: Seq<char>, i: int)
    requires
        0 <= i <= s.len(),
        valid_prefix(s, i),
    ensures
        parse_flags_spec(s) == parse_flags_from(s, i, bits_of(s, i)),
    decreases i,
{
    if i > 0 {
        lemma_parse_prefix(s, i - 1);
        lemma_bits_of(s, i - 1);
        let c = s[i - 1];
        if occurs_before(s, i - 1, c) {
            let k = choose|k: int| 0 <= k < i - 1 && #[trigger] s[k] == c;
            assert(s[k] != s[i - 1]);
        }
        assert(bits_of(s, i - 1) & flag_bit(c) == 0);
    }
}

proof fn lemma_parse_accepts(s: Seq<char>, i: int)
    requires
        0 <= i <= s.len(),
        valid_prefix(s, i),
    ensures
        (parse_flags_spec(s) is Ok) <==> valid_prefix(s, s.len() as int),
        valid_prefix(s, s.len() as int) ==> parse_flags_spec(s) == Ok::<u32, FlagError>(bits_of(s, s.len() as int)),
    decreases s.len() - i,
{
    lemma_parse_prefix(s, i);
    if i < s.len() {
        let c = s[i];
        lemma_bits_of(s, i);
        if flag_bit(c) != 0 && !occurs_before(s, i, c) {
            assert(valid_prefix(s, i + 1)) by {
                assert forall|k: int, l: int| 0 <= k < l < i + 1 implies #[trigger] s[k] != #[trigger] s[l] by {
                    if l == i && s[k] == c {
                        assert(occurs_before(s, i, c));
                    }
                }
            }
            lemma_parse_accepts(s, i + 1);
        } else {
            if flag_bit(c) != 0 {
                let k = choose|k: int| 0 <= k < i && #[trigger] s[k] == c;
                assert(s[k] == s[i]);
            }
            assert(!valid_prefix(s, s.len() as int));
        }
    }
}

/// A flags string is accepted exactly when it holds only flag letters, none
/// twice; the bits then hold exactly the letters that occur.
pub proof fn law_flags_accepted(s: Seq<char>)
    ensures
        (parse_flags_spec(s) is Ok) <==> valid_prefix(s, s.len() as int),
        parse_flags_spec(s) matches Ok(x) ==> x < 256 && forall|c: char|
            flag_bit(c) != 0 ==> ((x & #[trigger] flag_bit(c) != 0) <==> s.contains(c)),
{
    lemma_parse_accepts(s, 0);
    if valid_prefix(s, s.len() as int) {
        lemma_bits_of(s, s.len() as int);
        let x = bits_of(s, s.len() as int);
        assert forall|c: char| flag_bit(c) != 0 implies ((x & #[trigger] flag_bit(c) != 0) <==> s.contains(c)) by {
            if s.contains(c) {
                let k = choose|k: int| 0 <= k < s.len() && s[k] == c;
                assert(occurs_before(s, s.len() as int, c));
            }
            if occurs_before(s, s.len() as int, c) {
                let k = choose|k: int| 0 <= k < s.len() && #[trigger] s[k] == c;
                assert(s.contains(c));
            }
        }
    }
}

/// The bits of a flags string, or why it is refused.
pub fn parse_flags(flags: &str) -> (r: Result<u32, FlagError>)
    ensures
        r == parse_flags_spec(flags@),
{
    let n = flags.unicode_len();
    let mut seen: u32 = 0;
    let mut i: usize = 0;
    while i < n
        invariant
            n == flags@.len(),
            i <= n,
            parse_flags_from(flags@, i as int, seen) == parse_flags_spec(flags@),
        decreases n - i,
    {
        let c = flags.get_char(i);
        let bit: u32 = match c {
            'g' => 1,
            'i' => 2,
            'm' => 4,
            's' => 8,
            'u' => 16,
            'y' => 32,
            'd' => 64,
            'v' => 128,
            _ => {
                return Err(FlagError::Invalid);
            },
        };
        if seen & bit != 0 {
            return Err(FlagError::Duplicate);
        }
        seen = seen | bit;
        i = i + 1;
    }
    Ok(seen)
}

/// Append `c` to `out` when `bit` is set in `bits`.
fn push_flag(out: &mut String, bits: u32, bit: u32, c: &str)
    requires
        c@.len() == 1,
    ensures
        final(out)@ == old(out)@ + letter_if(bits, bit, c@[0]),
{
    if bits & bit != 0 {
        out.append(c);
        assert(c@ =~= seq![c@[0]]);
    } else {
        assert(old(out)@ + letter_if(bits, bit, c@[0]) =~= old(out)@);
    }
}

/// The flags string of `bits`, letters in the order `gimsuydv`.
pub fn flags_text(bits: u32) -> (r: String)
    ensures
        r@ == flags_text_spec(bits),
{
    let mut out = String::new();
    proof {
        reveal_strlit("g");
        reveal_strlit("i");
        reveal_strlit("m");
        reveal_strlit("s");
        reveal_strlit("u");
        reveal_strlit("y");
        reveal_strlit("d");
        reveal_strlit("v");
    }
    push_flag(&mut out, bits, 1, "g");
    push_flag(&mut out, bits, 2, "i");
    push_flag(&mut out, bits, 4, "m");
    push_flag(&mut out, bits, 8, "s");
    push_flag(&mut out, bits, 16, "u");
    push_flag(&mut out, bits, 32, "y");
    push_flag(&mut out, bits, 64, "d");
    push_flag(&mut out, bits, 128, "v");
    assert(out@ =~= flags_text_spec(bits));
    out
}

} // verus!
