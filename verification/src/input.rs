//! The benchmark's input format: whitespace-separated decimal numbers, first
//! the number of values `n` and of queries `q`, then the `n` values, then `q`
//! pairs `l r` of inclusive query bounds. Numbers after those are ignored.
use vstd::prelude::*;
use crate::rmq::util::{decimal, lemma_decimal_spelling};

verus! {

/// ASCII whitespace: space, tab, line feed, form feed, carriage return.
pub open spec fn is_space(b: u8) -> bool {
    b == 0x20 || b == 0x09 || b == 0x0a || b == 0x0c || b == 0x0d
}

/// An ASCII decimal digit.
pub open spec fn is_digit(b: u8) -> bool {
    0x30 <= b <= 0x39
}

/// The maximal runs of non-whitespace bytes of `s`, in order.
pub open spec fn words(s: Seq<u8>) -> Seq<Seq<u8>>
    decreases s.len(),
{
    if s.len() == 0 {
        Seq::empty()
    } else {
        let w = words(s.drop_last());
        let c = s.last();
        if is_space(c) {
            w
        } else if s.len() >= 2 && !is_space(s[s.len() - 2]) {
            w.drop_last().push(w.last().push(c))
        } else {
            w.push(seq![c])
        }
    }
}

/// Every byte of `w` is a digit.
pub open spec fn all_digits(w: Seq<u8>) -> bool {
    forall|i: int| 0 <= i < w.len() ==> is_digit(#[trigger] w[i])
}

/// The number the digits `w` write in decimal.
pub open spec fn digits_value(w: Seq<u8>) -> int
    decreases w.len(),
{
    if w.len() == 0 {
        0
    } else {
        digits_value(w.drop_last()) * 10 + (w.last() - 0x30)
    }
}

/// `w` writes a number that fits in a `u64`.
pub open spec fn is_number(w: Seq<u8>) -> bool {
    &&& w.len() > 0
    &&& all_digits(w)
    &&& digits_value(w) <= u64::MAX
}

/// Every word of `s` is a number.
pub open spec fn all_numbers(s: Seq<u8>) -> bool {
    forall|k: int| 0 <= k < words(s).len() ==> is_number(#[trigger] words(s)[k])
}

/// The numbers the words of `s` write.
pub open spec fn numbers(s: Seq<u8>) -> Seq<int> {
    words(s).map_values(|w: Seq<u8>| digits_value(w))
}

/// A word that cannot be completed into a number: a non-digit, or digits
/// already worth more than `u64::MAX`.
spec fn hopeless(w: Seq<u8>) -> bool {
    !(all_digits(w) && digits_value(w) <= u64::MAX)
}

/// Digits are worth at least zero, and more digits are worth no less.
proof fn lemma_digits_value_grows(w: Seq<u8>, c: u8)
    requires
        all_digits(w),
        is_digit(c),
    ensures
        digits_value(w) >= 0,
        all_digits(w.push(c)),
        digits_value(w.push(c)) == digits_value(w) * 10 + (c - 0x30),
        digits_value(w.push(c)) >= digits_value(w),
    decreases w.len(),
{
    if w.len() > 0 {
        lemma_digits_value_grows(w.drop_last(), w.last());
        assert(w.drop_last().push(w.last()) == w);
    }
    assert(w.push(c).drop_last() == w);
}

/// The numbers written in `text`, or `None` when some word is not a number.
pub fn parse_numbers(text: &[u8]) -> (r: Option<Vec<u64>>)
    ensures
        r is Some <==> all_numbers(text@),
        r matches Some(v) ==> v@.len() == words(text@).len() && forall|k: int|
            0 <= k < v@.len() ==> #[trigger] v@[k] == digits_value(words(text@)[k]),
{
    let mut nums: Vec<u64> = Vec::new();
    let mut valid = true;
    let mut in_word = false;
    let mut cur: u64 = 0;
    let ghost mut done: Seq<Seq<u8>> = Seq::empty();
    let ghost mut cur_w: Seq<u8> = Seq::empty();
    let mut i: usize = 0;
    proof {
        assert(text@.take(0) == Seq::<u8>::empty());
    }
    while i < text.len()
        invariant
            i <= text@.len(),
            in_word ==> words(text@.take(i as int)) == done.push(cur_w) && cur_w.len() > 0 && i > 0
                && !is_space(text@[i - 1]),
            !in_word ==> words(text@.take(i as int)) == done && (i == 0 || is_space(text@[i - 1])),
            valid ==> nums@.len() == done.len() && forall|k: int|
                0 <= k < done.len() ==> is_number(#[trigger] done[k]) && nums@[k] == digits_value(done[k]),
            valid && in_word ==> all_digits(cur_w) && digits_value(cur_w) == cur,
            !valid ==> (exists|k: int| 0 <= k < done.len() && !is_number(#[trigger] done[k])) || (in_word
                && hopeless(cur_w)),
        decreases text@.len() - i,
    {
        let c = text[i];
        let ghost prefix = text@.take(i + 1);
        proof {
            assert(prefix.drop_last() == text@.take(i as int));
            assert(prefix.last() == c);
            if i > 0 {
                assert(prefix[prefix.len() - 2] == text@[i - 1]);
            }
        }
        if c == 0x20 || c == 0x09 || c == 0x0a || c == 0x0c || c == 0x0d {
            if in_word {
                if valid {
                    nums.push(cur);
                }
                in_word = false;
                proof {
                    if valid {
                        assert(is_number(cur_w));
                    }
                    let ghost old_done = done;
                    done = done.push(cur_w);
                    if !valid {
                        if hopeless(cur_w) {
                            assert(!is_number(done[done.len() - 1]));
                        } else {
                            let k = choose|k: int| 0 <= k < old_done.len() && !is_number(#[trigger] old_done[k]);
                            assert(done[k] == old_done[k]);
                        }
                    }
                }
            }
        } else {
            if !in_word {
                in_word = true;
                cur = 0;
                proof {
                    cur_w = Seq::empty();
                    assert(all_digits(cur_w));
                }
            }
            let ghost old_w = cur_w;
            proof {
                cur_w = cur_w.push(c);
                assert(cur_w.drop_last() == old_w);
            }
            if valid {
                if 0x30 <= c && c <= 0x39 {
                    let d = (c - 0x30) as u64;
                    proof {
                        lemma_digits_value_grows(old_w, c);
                    }
                    if cur > (u64::MAX - d) / 10 {
                        proof {
                            assert(cur * 10 + d > u64::MAX) by (nonlinear_arith)
                                requires cur > (u64::MAX - d) / 10, d <= 9;
                        }
                        valid = false;
                    } else {
                        proof {
                            assert(cur * 10 + d <= u64::MAX) by (nonlinear_arith)
                                requires cur <= (u64::MAX - d) / 10, d <= 9;
                        }
                        cur = cur * 10 + d;
                    }
                } else {
                    valid = false;
                    proof {
                        assert(!is_digit(cur_w[cur_w.len() - 1]));
                    }
                }
            } else {
                proof {
                    if hopeless(old_w) && in_word {
                        if all_digits(cur_w) {
                            assert forall|k: int| 0 <= k < old_w.len() implies is_digit(#[trigger] old_w[k]) by {
                                assert(old_w[k] == cur_w[k]);
                            }
                            assert(cur_w[cur_w.len() - 1] == c);
                            lemma_digits_value_grows(old_w, c);
                        }
                    }
                }
            }
        }
        i = i + 1;
    }
    if in_word && valid {
        nums.push(cur);
    }
    proof {
        assert(text@.take(text@.len() as int) == text@);
        if in_word {
            let all = done.push(cur_w);
            if valid {
                assert forall|k: int| 0 <= k < all.len() implies is_number(#[trigger] all[k]) by {}
            } else if hopeless(cur_w) {
                assert(!is_number(all[all.len() - 1]));
            } else {
                let k = choose|k: int| 0 <= k < done.len() && !is_number(#[trigger] done[k]);
                assert(!is_number(all[k]));
            }
        }
    }
    if valid {
        Some(nums)
    } else {
        None
    }
}

/// The values and the queries of a benchmark input.
pub struct Input {
    pub data: Vec<u64>,
    pub queries: Vec<(usize, usize)>,
}

/// Why a text is not a benchmark input.
pub enum InputError {
    /// A word is not a decimal number that fits in a `u64`.
    BadNumber,
    /// Fewer numbers than the counts at the start announce.
    MissingNumbers,
    /// A query bound does not fit in a `usize`.
    TooLarge,
}

/// The numbers of `text` hold the two counts and all the values and
/// query bounds they announce.
pub open spec fn enough_numbers(nums: Seq<int>) -> bool {
    nums.len() >= 2 && nums.len() >= 2 + nums[0] + 2 * nums[1]
}

/// Some query bound is larger than a `usize`.
pub open spec fn bound_too_large(nums: Seq<int>) -> bool {
    exists|k: int| 0 <= k < 2 * nums[1] && #[trigger] nums[2 + nums[0] + k] > usize::MAX
}

/// Reads a benchmark input: `n`, `q`, the `n` values, then `q` pairs `l r`.
pub fn parse_input(text: &[u8]) -> (r: Result<Input, InputError>)
    ensures
        (r matches Err(InputError::BadNumber)) <==> !all_numbers(text@),
        all_numbers(text@) ==> {
            let nums = numbers(text@);
            let n = nums[0];
            let q = nums[1];
            &&& (r matches Err(InputError::MissingNumbers)) <==> !enough_numbers(nums)
            &&& (r matches Err(InputError::TooLarge)) <==> enough_numbers(nums) && bound_too_large(nums)
            &&& r matches Ok(input) ==> {
                &&& input.data@.len() == n
                &&& forall|i: int| 0 <= i < n ==> #[trigger] input.data@[i] == nums[2 + i]
                &&& input.queries@.len() == q
                &&& forall|k: int|
                    0 <= k < q ==> #[trigger] input.queries@[k].0 == nums[2 + n + 2 * k]
                        && input.queries@[k].1 == nums[2 + n + 2 * k + 1]
            }
        },
{
    let nums = match parse_numbers(text) {
        Some(v) => v,
        None => {
            return Err(InputError::BadNumber);
        },
    };
    let ghost vals = numbers(text@);
    proof {
        assert forall|k: int| 0 <= k < nums@.len() implies #[trigger] nums@[k] == vals[k] by {}
    }
    if nums.len() < 2 {
        return Err(InputError::MissingNumbers);
    }
    let n = nums[0];
    let q = nums[1];
    let avail = (nums.len() - 2) as u64;
    if n > avail || q > (avail - n) / 2 {
        return Err(InputError::MissingNumbers);
    }
    let n = n as usize;
    let q = q as usize;
    let mut data: Vec<u64> = Vec::new();
    let mut i: usize = 0;
    while i < n
        invariant
            vals == numbers(text@),
            all_numbers(text@),
            nums@.len() == vals.len(),
            nums@.len() <= usize::MAX,
            forall|k: int| 0 <= k < nums@.len() ==> #[trigger] nums@[k] == vals[k],
            2 + n + 2 * q <= nums@.len(),
            i <= n,
            data@.len() == i,
            forall|j: int| 0 <= j < i ==> #[trigger] data@[j] == vals[2 + j],
        decreases n - i,
    {
        data.push(nums[2 + i]);
        i = i + 1;
    }
    let mut queries: Vec<(usize, usize)> = Vec::new();
    let mut k: usize = 0;
    while k < q
        invariant
            vals == numbers(text@),
            all_numbers(text@),
            nums@.len() == vals.len(),
            nums@.len() <= usize::MAX,
            forall|j: int| 0 <= j < nums@.len() ==> #[trigger] nums@[j] == vals[j],
            2 + n + 2 * q <= nums@.len(),
            n == vals[0],
            q == vals[1],
            k <= q,
            queries@.len() == k,
            forall|j: int|
                0 <= j < k ==> #[trigger] queries@[j].0 == vals[2 + n + 2 * j] && queries@[j].1 == vals[2
                    + n + 2 * j + 1],
            forall|j: int| 0 <= j < 2 * k ==> #[trigger] vals[2 + n + j] <= usize::MAX,
        decreases q - k,
    {
        let a = nums[2 + n + 2 * k];
        let b = nums[2 + n + 2 * k + 1];
        if a > usize::MAX as u64 || b > usize::MAX as u64 {
            proof {
                if a > usize::MAX {
                    assert(vals[2 + vals[0] + 2 * k] > usize::MAX);
                } else {
                    assert(vals[2 + vals[0] + (2 * k + 1)] > usize::MAX);
                }
            }
            return Err(InputError::TooLarge);
        }
        queries.push((a as usize, b as usize));
        proof {
            assert forall|j: int| 0 <= j < 2 * (k + 1) implies #[trigger] vals[2 + n + j] <= usize::MAX by {
                if j == 2 * k {
                    assert(vals[2 + n + j] == a);
                } else if j == 2 * k + 1 {
                    assert(vals[2 + n + j] == b);
                }
            }
        }
        k = k + 1;
    }
    Ok(Input { data, queries })
}

/// The bytes of a string of ASCII characters.
pub open spec fn ascii_bytes(cs: Seq<char>) -> Seq<u8> {
    cs.map_values(|c: char| (c as u32) as u8)
}

/// Reading back the decimal spelling of `n` gives `n`: the number format
/// read here is the one the structures' names are written in.
pub proof fn lemma_read_back_decimal(n: nat)
    ensures
        is_number(ascii_bytes(decimal(n))) || n > u64::MAX,
        all_digits(ascii_bytes(decimal(n))),
        digits_value(ascii_bytes(decimal(n))) == n,
    decreases n,
{
    lemma_decimal_spelling(n);
    let b = ascii_bytes(decimal(n));
    assert forall|i: int| 0 <= i < b.len() implies is_digit(#[trigger] b[i]) by {
        assert(0x30 <= decimal(n)[i] as u32 <= 0x39);
        assert(b[i] == (decimal(n)[i] as u32) as u8);
    }
    assert(b.last() == (decimal(n).last() as u32) as u8);
    assert(b.last() == 0x30 + n % 10);
    if n >= 10 {
        lemma_read_back_decimal(n / 10);
        assert(b.drop_last() == ascii_bytes(decimal(n / 10)));
        assert(digits_value(b) == digits_value(b.drop_last()) * 10 + (b.last() - 0x30));
        assert((n / 10) * 10 + n % 10 == n);
    } else {
        assert(b.drop_last().len() == 0);
        assert(digits_value(b.drop_last()) == 0);
        assert(digits_value(b) == digits_value(b.drop_last()) * 10 + (b.last() - 0x30));
    }
}

} // verus!
