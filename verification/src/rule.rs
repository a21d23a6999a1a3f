//! Survive/born rules for the automaton, encoded as a 16-bit-wide bitset
//! inside a `u32` and parsed from texts of the shape `"23/3"`.

use crate::textops::push_char;
use vstd::prelude::*;

verus! {

/// Why a rule text was rejected.
#[derive(Clone, Copy, Debug, PartialEq, Eq, Structural)]
pub enum RuleError {
    /// The text does not hold exactly one `/`.
    InvalidFormat,
    /// The survive part holds a digit above 7.
    SurviveOutOfRange,
    /// The survive part holds a character that is no decimal digit.
    SurviveInvalidChar,
    /// The born part holds a digit above 7.
    BornOutOfRange,
    /// The born part holds a character that is no decimal digit.
    BornInvalidChar,
}

/// A survive/born rule.
///
/// Bit `n` (for `n < 8`) says that a live cell with `n` live neighbors
/// survives; bit `n + 8` says that a dead cell with `n` live neighbors is
/// born. No other bit is ever set.
#[derive(Clone, Copy, Debug, PartialEq, Eq, Structural)]
pub struct Rule(u32);

/// The digit character for a value `0 <= d <= 9`.
pub open spec fn digit_char(d: int) -> char {
    ((48 + d) as u8) as char
}

/// Is `c` a decimal digit?
pub open spec fn is_digit(c: char) -> bool {
    48 <= c as int <= 57
}

/// The numeric value of a digit character.
pub open spec fn digit_val(c: char) -> int {
    c as int - 48
}

/// A character that makes a rule part invalid: not a digit, or a digit
/// above 7.
pub open spec fn bad_rule_char(c: char) -> bool {
    !is_digit(c) || digit_val(c) >= 8
}

/// Every character of the part is a digit between 0 and 7.
pub open spec fn part_valid(p: Seq<char>) -> bool {
    forall|i: int| 0 <= i < p.len() ==> !bad_rule_char(p[i])
}

/// The index of the first invalid character of a part (the part's length
/// when every character is valid).
pub open spec fn first_bad(p: Seq<char>) -> int
    decreases p.len(),
{
    if p.len() == 0 {
        0
    } else if bad_rule_char(p[0]) {
        0
    } else {
        1 + first_bad(p.drop_first())
    }
}

/// How many `/` characters the text holds.
pub open spec fn slash_count(t: Seq<char>) -> int
    decreases t.len(),
{
    if t.len() == 0 {
        0
    } else {
        slash_count(t.drop_last()) + if t.last() == '/' { 1int } else { 0int }
    }
}

/// The text holds exactly one `/`.
pub open spec fn one_slash(t: Seq<char>) -> bool {
    slash_count(t) == 1
}

/// The index of a `/` in the text (the unique one when `one_slash` holds).
pub open spec fn slash_index(t: Seq<char>) -> int {
    choose|k: int| 0 <= k < t.len() && t[k] == '/'
}

/// What stands before the `/`.
pub open spec fn survive_part(t: Seq<char>) -> Seq<char> {
    t.subrange(0, slash_index(t))
}

/// What stands after the `/`.
pub open spec fn born_part(t: Seq<char>) -> Seq<char> {
    t.subrange(slash_index(t) + 1, t.len() as int)
}

/// The rule `r` means exactly what a text with survive part `sp` and born
/// part `bp` describes: a neighbor count is kept (or breeds) if and only if
/// its digit occurs in the corresponding part.
pub open spec fn rule_matches_parts(sp: Seq<char>, bp: Seq<char>, r: Rule) -> bool {
    &&& r.wf()
    &&& forall|d: int| 0 <= d < 8 ==> (r.survives(d) <==> sp.contains(digit_char(d)))
    &&& forall|d: int| 0 <= d < 8 ==> (r.is_born(d) <==> bp.contains(digit_char(d)))
}

impl Rule {
    /// The raw bitset.
    pub closed spec fn bits(self) -> u32 {
        self.0
    }

    /// Only the 16 survive/born bits may be set.
    pub open spec fn wf(self) -> bool {
        self.bits() < 0x10000
    }

    /// A live cell with `n` live neighbors stays alive.
    pub open spec fn survives(self, n: int) -> bool {
        0 <= n < 8 && (self.bits() >> (n as u32)) & 1 == 1
    }

    /// A dead cell with `n` live neighbors becomes alive.
    pub open spec fn is_born(self, n: int) -> bool {
        0 <= n < 8 && (self.bits() >> ((n + 8) as u32)) & 1 == 1
    }

    /// Survive flag for a neighbor count.
    pub fn survive(&self, count: u8) -> (r: bool)
        ensures
            r == self.survives(count as int),
    {
        count < 8 && (self.0 >> (count as u32)) & 1 == 1
    }

    /// Born flag for a neighbor count.
    pub fn born(&self, count: u8) -> (r: bool)
        ensures
            r == self.is_born(count as int),
    {
        count < 8 && (self.0 >> ((count as u32) + 8)) & 1 == 1
    }

    /// Parses a `"<survive-digits>/<born-digits>"` text. The text must hold
    /// exactly one `/`, and every other character must be a digit between 0
    /// and 7; each digit sets the survive or born flag of that neighbor
    /// count. Errors name the part and the kind of offending character,
    /// judged at the first invalid character, survive part first.
    pub fn parse(s: &str) -> (r: Result<Rule, RuleError>)
        ensures
            ({
                let t = s@;
                &&& (r is Ok <==> one_slash(t) && part_valid(survive_part(t)) && part_valid(
                    born_part(t),
                ))
                &&& (match r {
                    Ok(rule) => rule_matches_parts(survive_part(t), born_part(t), rule),
                    Err(e) => {
                        &&& (e == RuleError::InvalidFormat <==> !one_slash(t))
                        &&& (one_slash(t) && !part_valid(survive_part(t)) ==> e == (
                        if is_digit(survive_part(t)[first_bad(survive_part(t))]) {
                            RuleError::SurviveOutOfRange
                        } else {
                            RuleError::SurviveInvalidChar
                        }))
                        &&& (one_slash(t) && part_valid(survive_part(t)) && !part_valid(
                            born_part(t),
                        ) ==> e == (if is_digit(born_part(t)[first_bad(born_part(t))]) {
                            RuleError::BornOutOfRange
                        } else {
                            RuleError::BornInvalidChar
                        }))
                    },
                })
            }),
    {
        let ghost t = s@;
        let n = s.unicode_len();

        let mut slash_at: usize = 0;
        let mut seen: usize = 0;
        for i in 0..n
            invariant
                n == t.len(),
                t == s@,
                i <= n,
                seen <= i,
                seen == slash_count(t.subrange(0, i as int)),
                seen > 0 ==> slash_at < i && t[slash_at as int] == '/' && (forall|j: int|
                    0 <= j < slash_at ==> t[j] != '/'),
                seen == 0 ==> forall|j: int| 0 <= j < i ==> t[j] != '/',
        {
            let c = s.get_char(i);
            proof {
                assert(t.subrange(0, i + 1).drop_last() =~= t.subrange(0, i as int));
            }
            if c == '/' {
                if seen == 0 {
                    slash_at = i;
                }
                seen = seen + 1;
            }
        }
        proof {
            assert(t.subrange(0, n as int) =~= t);
        }
        if seen != 1 {
            return Err(RuleError::InvalidFormat);
        }
        proof {
            lemma_one_slash_unique(t, slash_at as int);
        }
        let ghost sp = survive_part(t);
        let ghost bp = born_part(t);

        let mut bits: u32 = 0;
        proof {
            assert forall|d: int| 0 <= d < 8 implies !((bits >> (d as u32)) & 1 == 1)
                && !t.subrange(0, 0).contains(#[trigger] digit_char(d)) by {
                lemma_low_bits_zero(bits, d as u32);
            }
        }
        for i in 0..slash_at
            invariant
                t == s@,
                n == t.len(),
                slash_at < n,
                slash_index(t) == slash_at as int,
                sp == survive_part(t),
                sp =~= t.subrange(0, slash_at as int),
                one_slash(t),
                bits < 0x100,
                forall|d: int|
                    0 <= d < 8 ==> (((bits >> (d as u32)) & 1 == 1) <==> t.subrange(
                        0,
                        i as int,
                    ).contains(digit_char(d))),
                forall|j: int| 0 <= j < i ==> !bad_rule_char(t[j]),
        {
            let c = s.get_char(i);
            let cv = c as u32;
            if cv < 48 || cv > 57 {
                proof {
                    lemma_first_bad_at(sp, i as int);
                }
                return Err(RuleError::SurviveInvalidChar);
            }
            let d = cv - 48;
            if d > 7 {
                proof {
                    lemma_first_bad_at(sp, i as int);
                }
                return Err(RuleError::SurviveOutOfRange);
            }
            proof {
                assert(c == digit_char(d as int));
                lemma_survive_step(t, i as int, bits, d);
            }
            bits = bits | (1u32 << d);
        }

        let start = slash_at + 1;
        proof {
            assert forall|d: int| 0 <= d < 8 implies !((bits >> ((d + 8) as u32)) & 1 == 1)
                && !bp.subrange(0, 0).contains(#[trigger] digit_char(d)) by {
                lemma_high_bits_zero(bits, (d + 8) as u32);
            }
        }
        for i in start..n
            invariant
                t == s@,
                n == t.len(),
                slash_at < n,
                start == slash_at + 1,
                slash_index(t) == slash_at as int,
                sp == survive_part(t),
                bp == born_part(t),
                sp =~= t.subrange(0, slash_at as int),
                bp =~= t.subrange(slash_at + 1, n as int),
                one_slash(t),
                part_valid(sp),
                bits < 0x10000,
                forall|d: int|
                    0 <= d < 8 ==> (((bits >> (d as u32)) & 1 == 1) <==> sp.contains(
                        digit_char(d),
                    )),
                forall|d: int|
                    0 <= d < 8 ==> (((bits >> ((d + 8) as u32)) & 1 == 1) <==> bp.subrange(
                        0,
                        i - start,
                    ).contains(digit_char(d))),
                forall|j: int| 0 <= j < i - start ==> !bad_rule_char(bp[j]),
        {
            let c = s.get_char(i);
            let cv = c as u32;
            proof {
                assert(bp[i - start] == t[i as int]);
            }
            if cv < 48 || cv > 57 {
                proof {
                    lemma_first_bad_at(bp, i - start as int);
                }
                return Err(RuleError::BornInvalidChar);
            }
            let d = cv - 48;
            if d > 7 {
                proof {
                    lemma_first_bad_at(bp, i - start as int);
                }
                return Err(RuleError::BornOutOfRange);
            }
            proof {
                assert(bp[i - start] == digit_char(d as int));
                lemma_born_step(bp, i - start as int, bits, d, sp);
            }
            bits = bits | (1u32 << (d + 8));
        }
        proof {
            assert(bp.subrange(0, bp.len() as int) =~= bp);
        }
        Ok(Rule(bits))
    }

    /// The canonical text of the rule: the set survive digits in ascending
    /// order, a `/`, then the set born digits in ascending order.
    pub open spec fn canonical(self) -> Seq<char> {
        survive_digits(self, 8) + seq!['/'] + born_digits(self, 8)
    }

    /// Writes the rule in its canonical text form; `parse` of the result
    /// yields the rule back.
    pub fn serialize(&self) -> (r: String)
        ensures
            r@ == self.canonical(),
    {
        let mut out = String::new();
        let mut i: u8 = 0;
        while i < 8
            invariant
                i <= 8,
                out@ == survive_digits(*self, i as int),
            decreases 8 - i,
        {
            if self.survive(i) {
                push_char(&mut out, (48 + i) as char);
                proof {
                    assert(out@ =~= survive_digits(*self, i + 1));
                }
            }
            proof {
                assert(out@ =~= survive_digits(*self, i + 1));
            }
            i = i + 1;
        }
        push_char(&mut out, '/');
        let ghost head = out@;
        let mut i: u8 = 0;
        while i < 8
            invariant
                i <= 8,
                head == survive_digits(*self, 8) + seq!['/'],
                out@ == head + born_digits(*self, i as int),
            decreases 8 - i,
        {
            if self.born(i) {
                push_char(&mut out, (48 + i) as char);
                proof {
                    assert(out@ =~= head + born_digits(*self, i + 1));
                }
            }
            proof {
                assert(out@ =~= head + born_digits(*self, i + 1));
            }
            i = i + 1;
        }
        proof {
            assert(out@ =~= self.canonical());
        }
        out
    }
}

/// The ascending survive digits of `r` below neighbor count `n`.
pub open spec fn survive_digits(r: Rule, n: int) -> Seq<char>
    decreases n,
{
    if n <= 0 {
        Seq::empty()
    } else {
        survive_digits(r, n - 1) + if r.survives(n - 1) {
            seq![digit_char(n - 1)]
        } else {
            Seq::empty()
        }
    }
}

/// The ascending born digits of `r` below neighbor count `n`.
pub open spec fn born_digits(r: Rule, n: int) -> Seq<char>
    decreases n,
{
    if n <= 0 {
        Seq::empty()
    } else {
        born_digits(r, n - 1) + if r.is_born(n - 1) {
            seq![digit_char(n - 1)]
        } else {
            Seq::empty()
        }
    }
}

/// A text's two parts determine the rule: two well-formed rules that mean
/// what the same survive and born parts describe are the same rule. With
/// the contract of `parse`, this is the round trip from a rule text back to
/// the survive/born sets it denotes.
pub proof fn lemma_rule_determined(sp: Seq<char>, bp: Seq<char>, a: Rule, b: Rule)
    requires
        rule_matches_parts(sp, bp, a),
        rule_matches_parts(sp, bp, b),
    ensures
        a == b,
{
    let x = a.bits();
    let y = b.bits();
    assert forall|d: int| 0 <= d < 8 implies (a.survives(d) <==> b.survives(d)) && (a.is_born(d)
        <==> b.is_born(d)) by {
        assert(a.survives(d) <==> sp.contains(digit_char(d)));
        assert(b.survives(d) <==> sp.contains(digit_char(d)));
        assert(a.is_born(d) <==> bp.contains(digit_char(d)));
        assert(b.is_born(d) <==> bp.contains(digit_char(d)));
    }
    assert(((x >> (0int as u32)) & 1 == 1) <==> ((y >> (0int as u32)) & 1 == 1)) by {
        assert(a.survives(0) <==> sp.contains(digit_char(0)));
        assert(b.survives(0) <==> sp.contains(digit_char(0)));
    }
    assert(((x >> (1int as u32)) & 1 == 1) <==> ((y >> (1int as u32)) & 1 == 1)) by {
        assert(a.survives(1) <==> sp.contains(digit_char(1)));
        assert(b.survives(1) <==> sp.contains(digit_char(1)));
    }
    assert(((x >> (2int as u32)) & 1 == 1) <==> ((y >> (2int as u32)) & 1 == 1)) by {
        assert(a.survives(2) <==> sp.contains(digit_char(2)));
        assert(b.survives(2) <==> sp.contains(digit_char(2)));
    }
    assert(((x >> (3int as u32)) & 1 == 1) <==> ((y >> (3int as u32)) & 1 == 1)) by {
        assert(a.survives(3) <==> sp.contains(digit_char(3)));
        assert(b.survives(3) <==> sp.contains(digit_char(3)));
    }
    assert(((x >> (4int as u32)) & 1 == 1) <==> ((y >> (4int as u32)) & 1 == 1)) by {
        assert(a.survives(4) <==> sp.contains(digit_char(4)));
        assert(b.survives(4) <==> sp.contains(digit_char(4)));
    }
    assert(((x >> (5int as u32)) & 1 == 1) <==> ((y >> (5int as u32)) & 1 == 1)) by {
        assert(a.survives(5) <==> sp.contains(digit_char(5)));
        assert(b.survives(5) <==> sp.contains(digit_char(5)));
    }
    assert(((x >> (6int as u32)) & 1 == 1) <==> ((y >> (6int as u32)) & 1 == 1)) by {
        assert(a.survives(6) <==> sp.contains(digit_char(6)));
        assert(b.survives(6) <==> sp.contains(digit_char(6)));
    }
    assert(((x >> (7int as u32)) & 1 == 1) <==> ((y >> (7int as u32)) & 1 == 1)) by {
        assert(a.survives(7) <==> sp.contains(digit_char(7)));
        assert(b.survives(7) <==> sp.contains(digit_char(7)));
    }
    assert(((x >> (8int as u32)) & 1 == 1) <==> ((y >> (8int as u32)) & 1 == 1)) by {
        assert(a.is_born(0) <==> bp.contains(digit_char(0)));
        assert(b.is_born(0) <==> bp.contains(digit_char(0)));
    }
    assert(((x >> (9int as u32)) & 1 == 1) <==> ((y >> (9int as u32)) & 1 == 1)) by {
        assert(a.is_born(1) <==> bp.contains(digit_char(1)));
        assert(b.is_born(1) <==> bp.contains(digit_char(1)));
    }
    assert(((x >> (10int as u32)) & 1 == 1) <==> ((y >> (10int as u32)) & 1 == 1)) by {
        assert(a.is_born(2) <==> bp.contains(digit_char(2)));
        assert(b.is_born(2) <==> bp.contains(digit_char(2)));
    }
    assert(((x >> (11int as u32)) & 1 == 1) <==> ((y >> (11int as u32)) & 1 == 1)) by {
        assert(a.is_born(3) <==> bp.contains(digit_char(3)));
        assert(b.is_born(3) <==> bp.contains(digit_char(3)));
    }
    assert(((x >> (12int as u32)) & 1 == 1) <==> ((y >> (12int as u32)) & 1 == 1)) by {
        assert(a.is_born(4) <==> bp.contains(digit_char(4)));
        assert(b.is_born(4) <==> bp.contains(digit_char(4)));
    }
    assert(((x >> (13int as u32)) & 1 == 1) <==> ((y >> (13int as u32)) & 1 == 1)) by {
        assert(a.is_born(5) <==> bp.contains(digit_char(5)));
        assert(b.is_born(5) <==> bp.contains(digit_char(5)));
    }
    assert(((x >> (14int as u32)) & 1 == 1) <==> ((y >> (14int as u32)) & 1 == 1)) by {
        assert(a.is_born(6) <==> bp.contains(digit_char(6)));
        assert(b.is_born(6) <==> bp.contains(digit_char(6)));
    }
    assert(((x >> (15int as u32)) & 1 == 1) <==> ((y >> (15int as u32)) & 1 == 1)) by {
        assert(a.is_born(7) <==> bp.contains(digit_char(7)));
        assert(b.is_born(7) <==> bp.contains(digit_char(7)));
    }
    assert(x == y) by (bit_vector)
        requires
            x < 0x10000,
            y < 0x10000,
            ((x >> 0u32) & 1 == 1) <==> ((y >> 0u32) & 1 == 1),
            ((x >> 1u32) & 1 == 1) <==> ((y >> 1u32) & 1 == 1),
            ((x >> 2u32) & 1 == 1) <==> ((y >> 2u32) & 1 == 1),
            ((x >> 3u32) & 1 == 1) <==> ((y >> 3u32) & 1 == 1),
            ((x >> 4u32) & 1 == 1) <==> ((y >> 4u32) & 1 == 1),
            ((x >> 5u32) & 1 == 1) <==> ((y >> 5u32) & 1 == 1),
            ((x >> 6u32) & 1 == 1) <==> ((y >> 6u32) & 1 == 1),
            ((x >> 7u32) & 1 == 1) <==> ((y >> 7u32) & 1 == 1),
            ((x >> 8u32) & 1 == 1) <==> ((y >> 8u32) & 1 == 1),
            ((x >> 9u32) & 1 == 1) <==> ((y >> 9u32) & 1 == 1),
            ((x >> 10u32) & 1 == 1) <==> ((y >> 10u32) & 1 == 1),
            ((x >> 11u32) & 1 == 1) <==> ((y >> 11u32) & 1 == 1),
            ((x >> 12u32) & 1 == 1) <==> ((y >> 12u32) & 1 == 1),
            ((x >> 13u32) & 1 == 1) <==> ((y >> 13u32) & 1 == 1),
            ((x >> 14u32) & 1 == 1) <==> ((y >> 14u32) & 1 == 1),
            ((x >> 15u32) & 1 == 1) <==> ((y >> 15u32) & 1 == 1),
    ;
}

/// The canonical text of a well-formed rule is itself a valid rule text:
/// it holds exactly one `/`, its parts hold only digits between 0 and 7 in
/// strictly ascending order, and those parts describe exactly the rule's
/// own survive and born sets. Together with the contracts of `parse` and
/// `serialize` and with `lemma_rule_determined`, parsing a rule's canonical
/// text yields the rule back, and serializing what a valid text parses to
/// yields the ascending canonical text for the same survive/born sets.
pub proof fn lemma_canonical_round_trip(r: Rule)
    requires
        r.wf(),
    ensures
        one_slash(r.canonical()),
        survive_part(r.canonical()) == survive_digits(r, 8),
        born_part(r.canonical()) == born_digits(r, 8),
        part_valid(survive_part(r.canonical())),
        part_valid(born_part(r.canonical())),
        rule_matches_parts(survive_part(r.canonical()), born_part(r.canonical()), r),
        forall|i: int, j: int|
            0 <= i < j < survive_part(r.canonical()).len() ==> digit_val(
                survive_part(r.canonical())[i],
            ) < digit_val(survive_part(r.canonical())[j]),
        forall|i: int, j: int|
            0 <= i < j < born_part(r.canonical()).len() ==> digit_val(born_part(r.canonical())[i])
                < digit_val(born_part(r.canonical())[j]),
{
    let sd = survive_digits(r, 8);
    let bd = born_digits(r, 8);
    let t = r.canonical();
    lemma_survive_digits(r, 8);
    lemma_born_digits(r, 8);
    let k = sd.len() as int;
    assert(t.len() == sd.len() + 1 + bd.len());
    assert(t[k] == '/');
    assert(forall|j: int| 0 <= j < k ==> t[j] == sd[j]);
    assert(forall|j: int| k < j < t.len() ==> t[j] == bd[j - k - 1]);
    lemma_count_from_chars(t.subrange(0, k));
    lemma_count_from_chars(t.subrange(k + 1, t.len() as int));
    lemma_slash_count_concat(t.subrange(0, k + 1), t.subrange(k + 1, t.len() as int));
    lemma_slash_count_concat(t.subrange(0, k), t.subrange(k, k + 1));
    assert(t.subrange(0, k + 1) + t.subrange(k + 1, t.len() as int) =~= t);
    assert(t.subrange(0, k) + t.subrange(k, k + 1) =~= t.subrange(0, k + 1));
    assert(slash_count(t.subrange(k, k + 1)) == 1) by {
        let p = t.subrange(k, k + 1);
        assert(p.len() == 1);
        assert(p.last() == t[k]);
        assert(p.drop_last() =~= Seq::<char>::empty());
        assert(slash_count(p.drop_last()) == 0);
        assert(slash_count(p) == slash_count(p.drop_last()) + 1);
    }
    assert(one_slash(t));
    lemma_one_slash_unique(t, k);
    assert(survive_part(t) =~= sd);
    assert(born_part(t) =~= bd);
}

proof fn lemma_count_from_chars(p: Seq<char>)
    requires
        forall|j: int| 0 <= j < p.len() ==> p[j] != '/',
    ensures
        slash_count(p) == 0,
    decreases p.len(),
{
    if p.len() > 0 {
        assert(forall|j: int| 0 <= j < p.len() - 1 ==> p.drop_last()[j] == p[j]);
        lemma_count_from_chars(p.drop_last());
    }
}

proof fn lemma_slash_count_concat(a: Seq<char>, b: Seq<char>)
    ensures
        slash_count(a + b) == slash_count(a) + slash_count(b),
    decreases b.len(),
{
    if b.len() == 0 {
        assert(a + b =~= a);
    } else {
        assert((a + b).drop_last() =~= a + b.drop_last());
        assert((a + b).last() == b.last());
        lemma_slash_count_concat(a, b.drop_last());
    }
}

proof fn lemma_survive_digits(r: Rule, n: int)
    requires
        0 <= n <= 8,
    ensures
        forall|i: int|
            0 <= i < survive_digits(r, n).len() ==> !bad_rule_char(survive_digits(r, n)[i])
                && survive_digits(r, n)[i] != '/' && digit_val(survive_digits(r, n)[i]) < n
                && r.survives(digit_val(survive_digits(r, n)[i])),
        forall|i: int, j: int|
            0 <= i < j < survive_digits(r, n).len() ==> digit_val(survive_digits(r, n)[i])
                < digit_val(survive_digits(r, n)[j]),
        forall|d: int| 0 <= d < n ==> (survive_digits(r, n).contains(digit_char(d)) <==> r.survives(d)),
        forall|d: int| n <= d < 8 ==> !survive_digits(r, n).contains(digit_char(d)),
    decreases n,
{
    if n > 0 {
        lemma_survive_digits(r, n - 1);
        let p = survive_digits(r, n - 1);
        let q = survive_digits(r, n);
        if r.survives(n - 1) {
            assert(q == p + seq![digit_char(n - 1)]);
            assert(q.len() == p.len() + 1);
            assert(forall|i: int| 0 <= i < p.len() ==> q[i] == p[i]);
            assert(q[p.len() as int] == digit_char(n - 1));
            assert(digit_val(digit_char(n - 1)) == n - 1);
            assert forall|d: int| 0 <= d < 8 implies (q.contains(#[trigger] digit_char(d)) <==> (
            p.contains(digit_char(d)) || d == n - 1)) by {
                lemma_contains_push(p, digit_char(n - 1), digit_char(d));
                assert(q =~= p.push(digit_char(n - 1)));
                assert(digit_char(d) as int == 48 + d);
            }
        } else {
            assert(q =~= p);
        }
    }
}

proof fn lemma_born_digits(r: Rule, n: int)
    requires
        0 <= n <= 8,
    ensures
        forall|i: int|
            0 <= i < born_digits(r, n).len() ==> !bad_rule_char(born_digits(r, n)[i])
                && born_digits(r, n)[i] != '/' && digit_val(born_digits(r, n)[i]) < n
                && r.is_born(digit_val(born_digits(r, n)[i])),
        forall|i: int, j: int|
            0 <= i < j < born_digits(r, n).len() ==> digit_val(born_digits(r, n)[i]) < digit_val(
                born_digits(r, n)[j],
            ),
        forall|d: int| 0 <= d < n ==> (born_digits(r, n).contains(digit_char(d)) <==> r.is_born(d)),
        forall|d: int| n <= d < 8 ==> !born_digits(r, n).contains(digit_char(d)),
    decreases n,
{
    if n > 0 {
        lemma_born_digits(r, n - 1);
        let p = born_digits(r, n - 1);
        let q = born_digits(r, n);
        if r.is_born(n - 1) {
            assert(q == p + seq![digit_char(n - 1)]);
            assert(q.len() == p.len() + 1);
            assert(forall|i: int| 0 <= i < p.len() ==> q[i] == p[i]);
            assert(q[p.len() as int] == digit_char(n - 1));
            assert(digit_val(digit_char(n - 1)) == n - 1);
            assert forall|d: int| 0 <= d < 8 implies (q.contains(#[trigger] digit_char(d)) <==> (
            p.contains(digit_char(d)) || d == n - 1)) by {
                lemma_contains_push(p, digit_char(n - 1), digit_char(d));
                assert(q =~= p.push(digit_char(n - 1)));
                assert(digit_char(d) as int == 48 + d);
            }
        } else {
            assert(q =~= p);
        }
    }
}

proof fn lemma_u32_bit_or(b: u32, d: u32, j: u32)
    ensures
        d < 16 && j < 16 ==> ((b | (1u32 << d)) >> j) & 1 == (if j == d {
            1u32
        } else {
            (b >> j) & 1
        }),
{
    assert(d < 16 && j < 16 ==> ((b | (1u32 << d)) >> j) & 1 == (if j == d {
        1u32
    } else {
        (b >> j) & 1
    })) by (bit_vector);
}

proof fn lemma_contains_push(p: Seq<char>, c: char, x: char)
    ensures
        p.push(c).contains(x) <==> p.contains(x) || c == x,
{
    if p.push(c).contains(x) {
        let i = choose|i: int| 0 <= i < p.push(c).len() && p.push(c)[i] == x;
        if i < p.len() {
            assert(p[i] == x);
        }
    }
    if p.contains(x) {
        let i = choose|i: int| 0 <= i < p.len() && p[i] == x;
        assert(p.push(c)[i] == x);
    }
    if c == x {
        assert(p.push(c)[p.len() as int] == x);
    }
}

proof fn lemma_low_bits_zero(b: u32, j: u32)
    requires
        b == 0,
    ensures
        (b >> j) & 1 != 1,
{
    assert(b == 0 ==> (b >> j) & 1 != 1) by (bit_vector);
}

proof fn lemma_high_bits_zero(b: u32, j: u32)
    requires
        b < 0x100,
        8 <= j,
    ensures
        (b >> j) & 1 != 1,
{
    assert(b < 0x100 && 8 <= j ==> (b >> j) & 1 != 1) by (bit_vector);
}

proof fn lemma_survive_step(t: Seq<char>, i: int, bits: u32, d: u32)
    requires
        0 <= i < t.len(),
        d < 8,
        t[i] == digit_char(d as int),
        bits < 0x100,
        forall|dd: int|
            0 <= dd < 8 ==> (((bits >> (dd as u32)) & 1 == 1) <==> t.subrange(0, i).contains(
                digit_char(dd),
            )),
    ensures
        (bits | (1u32 << d)) < 0x100,
        forall|dd: int|
            0 <= dd < 8 ==> ((((bits | (1u32 << d)) >> (dd as u32)) & 1 == 1) <==> t.subrange(
                0,
                i + 1,
            ).contains(digit_char(dd))),
{
    assert((bits | (1u32 << d)) < 0x100) by (bit_vector)
        requires
            bits < 0x100,
            d < 8,
    ;
    assert(t.subrange(0, i + 1) =~= t.subrange(0, i).push(t[i]));
    assert forall|dd: int| 0 <= dd < 8 implies ((((bits | (1u32 << d)) >> (dd as u32)) & 1 == 1)
        <==> t.subrange(0, i + 1).contains(#[trigger] digit_char(dd))) by {
        lemma_u32_bit_or(bits, d, dd as u32);
        lemma_contains_push(t.subrange(0, i), t[i], digit_char(dd));
        assert(digit_char(dd) as int == 48 + dd);
        assert(digit_char(d as int) as int == 48 + d);
    }
}

proof fn lemma_born_step(p: Seq<char>, i: int, bits: u32, d: u32, sp: Seq<char>)
    requires
        0 <= i < p.len(),
        d < 8,
        p[i] == digit_char(d as int),
        bits < 0x10000,
        forall|dd: int|
            0 <= dd < 8 ==> (((bits >> (dd as u32)) & 1 == 1) <==> sp.contains(digit_char(dd))),
        forall|dd: int|
            0 <= dd < 8 ==> (((bits >> ((dd + 8) as u32)) & 1 == 1) <==> p.subrange(0, i).contains(
                digit_char(dd),
            )),
    ensures
        (bits | (1u32 << ((d + 8) as u32))) < 0x10000,
        forall|dd: int|
            0 <= dd < 8 ==> ((((bits | (1u32 << ((d + 8) as u32))) >> (dd as u32)) & 1 == 1) <==> sp.contains(
                digit_char(dd),
            )),
        forall|dd: int|
            0 <= dd < 8 ==> ((((bits | (1u32 << ((d + 8) as u32))) >> ((dd + 8) as u32)) & 1 == 1)
                <==> p.subrange(0, i + 1).contains(digit_char(dd))),
{
    let e: u32 = (d + 8) as u32;
    assert((bits | (1u32 << e)) < 0x10000) by (bit_vector)
        requires
            bits < 0x10000,
            8 <= e < 16,
    ;
    assert(p.subrange(0, i + 1) =~= p.subrange(0, i).push(p[i]));
    assert forall|dd: int| 0 <= dd < 8 implies ((((bits | (1u32 << ((d + 8) as u32))) >> (
    dd as u32)) & 1 == 1) <==> sp.contains(#[trigger] digit_char(dd))) && ((((bits | (1u32 << ((d
        + 8) as u32))) >> ((dd + 8) as u32)) & 1 == 1) <==> p.subrange(0, i + 1).contains(
        digit_char(dd),
    )) by {
        lemma_u32_bit_or(bits, e, dd as u32);
        lemma_u32_bit_or(bits, e, (dd + 8) as u32);
        lemma_contains_push(p.subrange(0, i), p[i], digit_char(dd));
        assert(digit_char(dd) as int == 48 + dd);
        assert(digit_char(d as int) as int == 48 + d);
    }
}

proof fn lemma_slash_count_nonneg(t: Seq<char>)
    ensures
        slash_count(t) >= 0,
    decreases t.len(),
{
    if t.len() > 0 {
        lemma_slash_count_nonneg(t.drop_last());
    }
}

proof fn lemma_no_slash(t: Seq<char>)
    requires
        slash_count(t) == 0,
    ensures
        forall|j: int| 0 <= j < t.len() ==> t[j] != '/',
    decreases t.len(),
{
    if t.len() > 0 {
        lemma_slash_count_nonneg(t.drop_last());
        assert(t.last() != '/');
        lemma_no_slash(t.drop_last());
        assert(forall|j: int| 0 <= j < t.len() - 1 ==> t[j] == t.drop_last()[j]);
    }
}

proof fn lemma_one_slash_unique(t: Seq<char>, k: int)
    requires
        slash_count(t) == 1,
        0 <= k < t.len(),
        t[k] == '/',
        forall|j: int| 0 <= j < k ==> t[j] != '/',
    ensures
        forall|j: int| 0 <= j < t.len() && j != k ==> t[j] != '/',
        slash_index(t) == k,
    decreases t.len(),
{
    lemma_slash_count_nonneg(t.drop_last());
    if k == t.len() - 1 {
        assert(t.drop_last() =~= t.subrange(0, k));
        assert(slash_count(t.drop_last()) == 0);
        lemma_no_slash(t.drop_last());
        assert(forall|j: int| 0 <= j < t.len() - 1 ==> t[j] == t.drop_last()[j]);
    } else {
        assert(t.drop_last()[k] == t[k]);
        if t.last() == '/' {
            assert(slash_count(t.drop_last()) == 0);
            lemma_no_slash(t.drop_last());
            assert(t.drop_last()[k] != '/');
            assert(false);
        } else {
            assert(forall|j: int| 0 <= j < k ==> t.drop_last()[j] != '/');
            lemma_one_slash_unique(t.drop_last(), k);
            assert(forall|j: int|
                0 <= j < t.len() - 1 && j != k ==> t[j] == t.drop_last()[j] && t[j] != '/');
        }
    }
    assert(exists|j: int| 0 <= j < t.len() && t[j] == '/') by {
        assert(t[k] == '/');
    }
}

proof fn lemma_first_bad_at(p: Seq<char>, i: int)
    requires
        0 <= i < p.len(),
        bad_rule_char(p[i]),
        forall|j: int| 0 <= j < i ==> !bad_rule_char(p[j]),
    ensures
        first_bad(p) == i,
    decreases p.len(),
{
    if i == 0 {
    } else {
        assert(!bad_rule_char(p[0]));
        assert(p.drop_first()[i - 1] == p[i]);
        assert(forall|j: int| 0 <= j < i - 1 ==> p.drop_first()[j] == p[j + 1]);
        lemma_first_bad_at(p.drop_first(), i - 1);
    }
}

} // verus!
