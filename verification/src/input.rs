//! The graph arguments: hypercube names and the matrix file format (the
//! number of vertices, then the rows of the multiplicity matrix).
use vstd::prelude::*;

verus! {

/// Why a graph argument was refused.
#[derive(Clone, Copy, Debug, PartialEq, Eq)]
pub enum InputError {
    /// a hypercube name with a dimension outside 1..=6
    HypercubeDimension,
    /// a matrix file without numbers
    EmptyFile,
    /// a matrix file with `got` numbers after `n`, where `expected = n * n`
    WrongCount { expected: u64, n: u64, got: u64 },
}

/// What a hypercube name `q<d>` or `Q<d>` (a single digit) denotes: the
/// dimension, or the refusal of a digit outside 1..=6; `None` for any
/// other text.
pub open spec fn hypercube_spec(s: Seq<u8>) -> Option<Result<u32, InputError>> {
    if s.len() == 2 && (s[0] == 0x71u8 || s[0] == 0x51u8) && 0x30u8 <= s[1] <= 0x39u8 {
        let d = (s[1] - 0x30u8) as u32;
        if 1 <= d <= 6 {
            Some(Ok(d))
        } else {
            Some(Err(InputError::HypercubeDimension))
        }
    } else {
        None
    }
}

/// Reads a hypercube name.
pub fn hypercube_dim(s: &[u8]) -> (r: Option<Result<u32, InputError>>)
    ensures
        r == hypercube_spec(s@),
{
    if s.len() == 2 && (s[0] == 0x71u8 || s[0] == 0x51u8) && 0x30u8 <= s[1] && s[1] <= 0x39u8 {
        let d = (s[1] - 0x30u8) as u32;
        if 1 <= d && d <= 6 {
            Some(Ok(d))
        } else {
            Some(Err(InputError::HypercubeDimension))
        }
    } else {
        None
    }
}

/// The matrix that a list of numbers denotes: `n`, then `n * n` entries row
/// by row.
pub open spec fn matrix_spec(nums: Seq<u32>) -> Result<Seq<Seq<u32>>, InputError> {
    if nums.len() == 0 {
        Err(InputError::EmptyFile)
    } else {
        let n = nums[0] as int;
        if nums.len() != 1 + n * n {
            Err(InputError::WrongCount { expected: (n * n) as u64, n: n as u64, got: (nums.len() - 1) as u64 })
        } else {
            Ok(Seq::new(n as nat, |i: int| Seq::new(n as nat, |j: int| nums[1 + i * n + j])))
        }
    }
}

/// The views of the rows.
pub open spec fn rows_of(m: Seq<Vec<u32>>) -> Seq<Seq<u32>> {
    m.map_values(|r: Vec<u32>| r@)
}

/// Builds the multiplicity matrix from the numbers of a graph file.
pub fn matrix_from_numbers(nums: &[u32]) -> (r: Result<Vec<Vec<u32>>, InputError>)
    requires
        nums@.len() <= u64::MAX,
    ensures
        match r {
            Ok(m) => matrix_spec(nums@) == Ok::<Seq<Seq<u32>>, InputError>(rows_of(m@)),
            Err(e) => matrix_spec(nums@) == Err::<Seq<Seq<u32>>, InputError>(e),
        },
{
    if nums.len() == 0 {
        return Err(InputError::EmptyFile);
    }
    let n = nums[0] as u64;
    proof {
        assert(n * n <= 0xffff_fffe_0000_0001) by (nonlinear_arith)
            requires n <= 0xffff_ffff;
    }
    let sq: u64 = n * n;
    let got: u64 = (nums.len() - 1) as u64;
    if got != sq {
        return Err(InputError::WrongCount { expected: sq, n, got });
    }
    let nn = n as usize;
    let len: usize = nums.len();
    let mut m: Vec<Vec<u32>> = Vec::new();
    for i in 0..nn
        invariant
            len == nums@.len(),
            nn == n,
            nums@.len() == 1 + n * n,
            m@.len() == i,
            forall|r: int, c: int|
                0 <= r < i && 0 <= c < n ==> (#[trigger] m@[r]@[c]) == nums@[1 + r * n + c],
            forall|r: int| 0 <= r < i ==> (#[trigger] m@[r])@.len() == n,
    {
        let mut row: Vec<u32> = Vec::new();
        for j in 0..nn
            invariant
                len == nums@.len(),
                nn == n,
                i < n,
                nums@.len() == 1 + n * n,
                row@.len() == j,
                forall|c: int| 0 <= c < j ==> #[trigger] row@[c] == nums@[1 + i * n + c],
        {
            proof {
                assert(1 + i * n + j < 1 + n * n) by (nonlinear_arith)
                    requires i < n, j < n;
                assert(0 <= i * n) by (nonlinear_arith)
                    requires 0 <= i, 0 <= n;
            }
            let base: usize = i * nn;
            row.push(nums[1 + base + j]);
        }
        m.push(row);
    }
    proof {
        let spec_m = Seq::new(n as nat, |i: int| Seq::new(n as nat, |j: int| nums@[1 + i * n + j]));
        assert(rows_of(m@) =~= spec_m) by {
            assert forall|i: int| 0 <= i < n implies #[trigger] rows_of(m@)[i] =~= spec_m[i] by {}
        }
    }
    Ok(m)
}

/// ASCII white space: space, tab, line feed, vertical tab, form feed and
/// carriage return.
pub open spec fn is_space(b: u8) -> bool {
    b == 32u8 || (9u8 <= b && b <= 13u8)
}

/// The words read so far from the first `k` bytes: the finished ones, and
/// the one being read.
pub open spec fn word_state(t: Seq<u8>, k: int) -> (Seq<Seq<u8>>, Seq<u8>)
    decreases k,
{
    if k <= 0 {
        (Seq::empty(), Seq::empty())
    } else {
        let st = word_state(t, k - 1);
        let b = t[k - 1];
        if is_space(b) {
            if st.1.len() > 0 {
                (st.0.push(st.1), Seq::empty())
            } else {
                (st.0, Seq::empty())
            }
        } else {
            (st.0, st.1.push(b))
        }
    }
}

/// The maximal runs of bytes other than white space, in order.
pub open spec fn words(t: Seq<u8>) -> Seq<Seq<u8>> {
    let st = word_state(t, t.len() as int);
    if st.1.len() > 0 {
        st.0.push(st.1)
    } else {
        st.0
    }
}

pub open spec fn is_digit(b: u8) -> bool {
    48u8 <= b && b <= 57u8
}

/// The number a string of decimal digits denotes.
pub open spec fn digits_value(d: Seq<u8>) -> int
    decreases d.len(),
{
    if d.len() == 0 {
        0
    } else {
        10 * digits_value(d.drop_last()) + (d.last() - 48u8)
    }
}

/// The digits of a word after an optional `+`.
pub open spec fn unsigned_digits(w: Seq<u8>) -> Seq<u8> {
    if w.len() > 0 && w[0] == 43u8 {
        w.skip(1)
    } else {
        w
    }
}

/// The `u32` a word denotes: an optional `+`, then at least one decimal
/// digit, with a value at most `u32::MAX`.
pub open spec fn word_value(w: Seq<u8>) -> Option<u32> {
    let d = unsigned_digits(w);
    if d.len() > 0 && (forall|i: int| 0 <= i < d.len() ==> #[trigger] is_digit(d[i])) && digits_value(d) <= u32::MAX {
        Some(digits_value(d) as u32)
    } else {
        None
    }
}

/// The numbers of the first `k` words, or the first of them that is not a
/// number.
pub open spec fn numbers_upto(ws: Seq<Seq<u8>>, k: int) -> Result<Seq<u32>, Seq<u8>>
    decreases k,
{
    if k <= 0 {
        Ok(Seq::empty())
    } else {
        match numbers_upto(ws, k - 1) {
            Ok(v) => match word_value(ws[k - 1]) {
                Some(x) => Ok(v.push(x)),
                None => Err(ws[k - 1]),
            },
            Err(e) => Err(e),
        }
    }
}

/// The numbers of a graph file: its words read as `u32`, or the first word
/// that is not one.
pub open spec fn numbers_spec(t: Seq<u8>) -> Result<Seq<u32>, Seq<u8>> {
    numbers_upto(words(t), words(t).len() as int)
}

fn split_words(text: &[u8]) -> (ws: Vec<Vec<u8>>)
    ensures
        ws@.len() == words(text@).len(),
        forall|i: int| 0 <= i < ws@.len() ==> (#[trigger] ws@[i])@ == words(text@)[i],
{
    let mut done: Vec<Vec<u8>> = Vec::new();
    let mut cur: Vec<u8> = Vec::new();
    for k in 0..text.len()
        invariant
            done@.len() == word_state(text@, k as int).0.len(),
            forall|i: int| 0 <= i < done@.len() ==> (#[trigger] done@[i])@ == word_state(text@, k as int).0[i],
            cur@ == word_state(text@, k as int).1,
    {
        let b = text[k];
        if b == 32u8 || (9u8 <= b && b <= 13u8) {
            if cur.len() > 0 {
                let ghost d0 = done@;
                done.push(cur);
                cur = Vec::new();
                proof {
                    assert forall|i: int| 0 <= i < done@.len() implies (#[trigger] done@[i])@ == word_state(text@, k + 1).0[i] by {
                        if i < d0.len() {
                            assert(done@[i] == d0[i]);
                        }
                    }
                }
            }
        } else {
            cur.push(b);
        }
    }
    if cur.len() > 0 {
        let ghost d0 = done@;
        done.push(cur);
        proof {
            assert forall|i: int| 0 <= i < done@.len() implies (#[trigger] done@[i])@ == words(text@)[i] by {
                if i < d0.len() {
                    assert(done@[i] == d0[i]);
                }
            }
        }
    }
    done
}

proof fn lemma_digits_value_nonneg(d: Seq<u8>)
    requires
        forall|i: int| 0 <= i < d.len() ==> #[trigger] is_digit(d[i]),
    ensures
        digits_value(d) >= 0,
    decreases d.len(),
{
    if d.len() > 0 {
        assert(is_digit(d[d.len() - 1]));
        assert forall|i: int| 0 <= i < d.drop_last().len() implies #[trigger] is_digit(d.drop_last()[i]) by {
            assert(d.drop_last()[i] == d[i]);
        }
        lemma_digits_value_nonneg(d.drop_last());
    }
}

/// Reads one word as a `u32`.
fn word_to_u32(w: &[u8]) -> (r: Option<u32>)
    ensures
        r == word_value(w@),
{
    let start: usize = if w.len() > 0 && w[0] == 43u8 { 1 } else { 0 };
    let ghost d = unsigned_digits(w@);
    proof {
        assert(d =~= w@.skip(start as int));
    }
    if start >= w.len() {
        return None;
    }
    let mut acc: u64 = 0;
    let mut big = false;
    let mut k = start;
    while k < w.len()
        invariant
            start <= k <= w@.len(),
            d == w@.skip(start as int),
            d == unsigned_digits(w@),
            forall|i: int| 0 <= i < k - start ==> #[trigger] is_digit(d[i]),
            big ==> digits_value(d.take(k - start)) > u32::MAX,
            !big ==> acc == digits_value(d.take(k - start)) && acc <= u32::MAX,
        decreases w@.len() - k,
    {
        let b = w[k];
        if !(48u8 <= b && b <= 57u8) {
            proof {
                assert(d[k - start] == b);
                assert(!is_digit(d[k - start]));
            }
            return None;
        }
        proof {
            let p = d.take(k - start);
            let q = d.take(k - start + 1);
            assert(q.drop_last() =~= p);
            assert(q.last() == b);
            assert(digits_value(q) == 10 * digits_value(p) + (b - 48u8));
            lemma_digits_value_nonneg(p);
        }
        if !big {
            acc = acc * 10 + (b - 48u8) as u64;
            if acc > 4294967295u64 {
                big = true;
            }
        }
        k += 1;
    }
    proof {
        assert(d.take(d.len() as int) =~= d);
        assert(d.len() > 0);
    }
    if big {
        None
    } else {
        Some(acc as u32)
    }
}

/// Reads the numbers of a graph file: the words separated by ASCII white
/// space, each an optional `+` and decimal digits of a `u32`; the first word
/// that is not one is the error.
pub fn parse_numbers(text: &[u8]) -> (r: Result<Vec<u32>, Vec<u8>>)
    ensures
        match r {
            Ok(v) => numbers_spec(text@) == Ok::<Seq<u32>, Seq<u8>>(v@),
            Err(e) => numbers_spec(text@) == Err::<Seq<u32>, Seq<u8>>(e@),
        },
{
    let ws = split_words(text);
    let ghost wv = words(text@);
    let mut out: Vec<u32> = Vec::new();
    for k in 0..ws.len()
        invariant
            ws@.len() == wv.len(),
            wv == words(text@),
            forall|i: int| 0 <= i < ws@.len() ==> (#[trigger] ws@[i])@ == wv[i],
            numbers_upto(wv, k as int) == Ok::<Seq<u32>, Seq<u8>>(out@),
    {
        let w = &ws[k];
        match word_to_u32(w.as_slice()) {
            Some(x) => {
                out.push(x);
            },
            None => {
                let e = w.clone();
                proof {
                    assert(e@ == wv[k as int]);
                    lemma_numbers_stay_err(wv, k + 1, wv.len() as int);
                }
                return Err(e);
            },
        }
    }
    Ok(out)
}

proof fn lemma_numbers_stay_err(ws: Seq<Seq<u8>>, k: int, j: int)
    requires
        1 <= k <= j,
        numbers_upto(ws, k) is Err,
    ensures
        numbers_upto(ws, j) == numbers_upto(ws, k),
    decreases j - k,
{
    if k < j {
        lemma_numbers_stay_err(ws, k, j - 1);
    }
}

} // verus!
