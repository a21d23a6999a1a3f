//! A compact text type: up to 12 characters, lowercase letters and space
//! only, packed five bits apiece into one `u64`.

use crate::textops::push_char;
use vstd::prelude::*;

verus! {

/// The five-bit group of `n` at position `i` (position 0 is the lowest).
pub open spec fn chunk(n: u64, i: int) -> u64 {
    (n >> ((i * 5) as u64)) & 0x1F
}

/// The code a character is stored under: 0 to 25 for `a` to `z`, 26 for
/// space; 27 marks a character the type cannot hold.
pub open spec fn char_code(c: char) -> int {
    if 97 <= c as int <= 122 {
        c as int - 97
    } else if c as int == 32 {
        26
    } else {
        27
    }
}

/// The character a stored code stands for.
pub open spec fn code_char(v: int) -> char {
    if v < 26 {
        ((97 + v) as u8) as char
    } else {
        ' '
    }
}

/// The characters that reading the groups from the top down yields: groups
/// above the text are zero and are skipped; once a nonzero group is seen,
/// the first zero group below it ends the text. A group of value zero
/// (the code of `a` at position zero is also zero) is indistinguishable
/// from padding and cuts the text short there.
pub open spec fn scan(n: u64, i: int, started: bool) -> Seq<char>
    decreases i + 1,
{
    if i < 0 {
        Seq::empty()
    } else if chunk(n, i) == 0 {
        if started {
            Seq::empty()
        } else {
            scan(n, i - 1, false)
        }
    } else {
        scan(n, i - 1, true).push(code_char(chunk(n, i) as int))
    }
}

/// Up to 12 lowercase-or-space characters packed into a `u64`.
#[derive(Clone, Copy, Debug, PartialEq, Eq, Structural)]
pub struct TinyStr(pub u64);

/// A piece of board material, named by a compact text.
pub struct Tile {
    pub material: TinyStr,
}

impl TinyStr {
    /// Every five-bit group holds a storable code.
    pub open spec fn wf(self) -> bool {
        forall|i: int| 0 <= i < 12 ==> #[trigger] chunk(self.0, i) <= 26
    }

    /// The text the value stands for.
    pub open spec fn text(self) -> Seq<char> {
        scan(self.0, 11, false)
    }

    /// Unpacks the value back into its text.
    pub fn as_string(&self) -> (r: String)
        requires
            self.wf(),
        ensures
            r@ == self.text(),
    {
        let num = self.0;
        let mut out = String::new();

        // the highest occupied position, scanning from the top
        let mut hi: usize = 12;
        while hi > 0
            invariant
                hi <= 12,
                forall|j: int| hi <= j < 12 ==> chunk(num, j) == 0,
            ensures
                hi <= 12,
                forall|j: int| hi <= j < 12 ==> chunk(num, j) == 0,
                hi > 0 ==> chunk(num, hi - 1) != 0,
            decreases hi,
        {
            if (num >> ((5 * (hi - 1)) as u64)) & 0x1F != 0 {
                break ;
            }
            proof {
                assert(chunk(num, hi - 1) == 0);
            }
            hi = hi - 1;
        }
        if hi == 0 {
            proof {
                lemma_scan_skip(num, 11, -1);
            }
            return out;
        }
        let top = hi - 1;
        proof {
            assert(chunk(num, top as int) != 0);
            lemma_scan_skip(num, 11, top as int);
        }

        // the lowest position of the run of nonzero groups ending at `top`
        let mut k: usize = top;
        while k > 0
            invariant
                k <= top < 12,
                forall|j: int| k <= j <= top ==> chunk(num, j) != 0,
            ensures
                k <= top < 12,
                forall|j: int| k <= j <= top ==> chunk(num, j) != 0,
                k == 0 || chunk(num, k - 1) == 0,
            decreases k,
        {
            if (num >> ((5 * (k - 1)) as u64)) & 0x1F == 0 {
                break ;
            }
            proof {
                assert(chunk(num, k - 1) != 0);
            }
            k = k - 1;
        }
        proof {
            assert(k == 0 || chunk(num, k - 1) == 0);
        }

        let mut i: usize = k;
        while i <= top
            invariant
                self.wf(),
                num == self.0,
                k <= i <= top + 1,
                top < 12,
                k == 0 || chunk(num, k - 1) == 0,
                forall|j: int| k <= j <= top ==> chunk(num, j) != 0,
                out@ == scan(num, i - 1, true),
            decreases top + 1 - i,
        {
            let v = (num >> ((5 * i) as u64)) & 0x1F;
            proof {
                assert(v == chunk(num, i as int));
                assert(chunk(num, i as int) <= 26);
            }
            let c = if v < 26 {
                (97 + v as u8) as char
            } else {
                ' '
            };
            proof {
                assert(c == code_char(v as int));
            }
            push_char(&mut out, c);
            i = i + 1;
        }
        proof {
            assert(out@ == scan(num, top as int, true));
            assert(scan(num, top as int, false) == scan(num, top as int, true));
        }
        out
    }
}

/// Packs a text of at most 12 storable characters; position `i` of the
/// word holds the code of character `i`.
pub fn tiny_str(s: &str) -> (r: TinyStr)
    requires
        s@.len() <= 12,
        forall|i: int| 0 <= i < s@.len() ==> char_code(s@[i]) < 27,
    ensures
        r.wf(),
        forall|i: int| 0 <= i < s@.len() ==> chunk(r.0, i) == char_code(s@[i]),
        forall|i: int| s@.len() <= i < 12 ==> chunk(r.0, i) == 0,
{
    let n = s.unicode_len();
    let mut num: u64 = 0;
    let mut i: usize = 0;
    proof {
        assert forall|j: int| 0 <= j < 12 implies chunk(0u64, j) == 0 by {
            lemma_u64_chunk_zero(j as u64);
        }
    }
    while i < n
        invariant
            n == s@.len() <= 12,
            i <= n,
            forall|j: int| 0 <= j < s@.len() ==> char_code(s@[j]) < 27,
            forall|j: int| 0 <= j < i ==> #[trigger] chunk(num, j) == char_code(s@[j]),
            forall|j: int| i <= j < 12 ==> #[trigger] chunk(num, j) == 0,
        decreases n - i,
    {
        let c = s.get_char(i);
        let v = c as u32;
        let code: u64 = if c == ' ' {
            26
        } else {
            proof {
                assert(char_code(s@[i as int]) < 27);
                assert(97 <= v <= 122);
            }
            (v - 97) as u64
        };
        proof {
            assert(code == char_code(s@[i as int]));
            assert(chunk(num, i as int) == 0);
            assert forall|j: int| 0 <= j < 12 implies #[trigger] chunk(
                num | (code << ((i * 5) as u64)),
                j,
            ) == (if j == i {
                code as int
            } else {
                chunk(num, j) as int
            }) by {
                lemma_u64_chunk_or(num, code, i as u64, j as u64);
            }
        }
        num = num | (code << ((5 * i) as u64));
        i = i + 1;
    }
    TinyStr(num)
}

proof fn lemma_u64_chunk_zero(j: u64)
    ensures
        (0u64 >> (j * 5)) & 0x1F == 0,
{
    assert((0u64 >> (j * 5)) & 0x1F == 0) by (bit_vector);
}

proof fn lemma_u64_chunk_or(n: u64, c: u64, i: u64, j: u64)
    requires
        i < 12,
        j < 12,
        c < 32,
        (n >> (i * 5)) & 0x1F == 0,
    ensures
        ((n | (c << (i * 5))) >> (j * 5)) & 0x1F == (if i == j {
            c
        } else {
            (n >> (j * 5)) & 0x1F
        }),
{
    assert(i < 12 && j < 12 && c < 32 && (n >> (i * 5)) & 0x1F == 0 ==> ((n | (c << (i * 5))) >> (j
        * 5)) & 0x1F == (if i == j {
        c
    } else {
        (n >> (j * 5)) & 0x1F
    })) by (bit_vector);
}

proof fn lemma_scan_skip(n: u64, i: int, h: int)
    requires
        -1 <= h <= i <= 11,
        forall|j: int| h < j <= i ==> chunk(n, j) == 0,
    ensures
        scan(n, i, false) == (if h < 0 {
            Seq::<char>::empty()
        } else {
            scan(n, h, false)
        }),
    decreases i - h,
{
    if i == h {
    } else {
        assert(chunk(n, i) == 0);
        lemma_scan_skip(n, i - 1, h);
    }
}

} // verus!
