use vstd::prelude::*;

use crate::errors::NjError;

verus! {

/// Largest matrix entry (and input denominator) the solvers accept.
/// The engine's exact arithmetic doubles numerators once per merge, so the
/// input magnitudes must leave room in an `i128`.
pub const INPUT_CAP: i128 = 0x4000_0000_0000_0000;

/// Largest number of taxa the solvers accept.
pub const MAX_TAXA: usize = 1024;

/// A symmetric matrix of pairwise distances with one name per taxon.
///
/// Distances are exact rationals sharing one denominator: entry `(i, j)`
/// stands for the value `matrix[i][j] / den`. A matrix read from decimal
/// text uses a power of ten for `den`; matrices built from integer data use
/// `den == 1`.
#[derive(Debug, Clone)]
pub struct DistanceMatrix {
    pub matrix: Vec<Vec<i128>>,
    pub den: i128,
    pub names: Vec<String>,
}

impl DistanceMatrix {
    /// The matrix is square with one row per name.
    pub open spec fn consistent(self) -> bool {
        &&& self.names@.len() == self.matrix@.len()
        &&& forall|i: int|
            0 <= i < self.matrix@.len() ==> (#[trigger] self.matrix@[i])@.len()
                == self.matrix@.len()
    }

    /// Everything the solvers demand of an input: a square matrix matching
    /// the names, symmetric with a zero diagonal, entries non-negative and
    /// within the capacity of the exact arithmetic.
    pub open spec fn valid_input(self) -> bool {
        &&& self.consistent()
        &&& 1 <= self.den <= INPUT_CAP
        &&& self.matrix@.len() <= MAX_TAXA
        &&& forall|i: int, j: int|
            0 <= i < self.matrix@.len() && 0 <= j < self.matrix@.len()
                ==> 0 <= #[trigger] self.matrix@[i]@[j] <= INPUT_CAP
        &&& forall|i: int, j: int|
            0 <= i < self.matrix@.len() && 0 <= j < self.matrix@.len()
                ==> #[trigger] self.matrix@[i]@[j] == self.matrix@[j]@[i]
        &&& forall|i: int|
            0 <= i < self.matrix@.len() ==> #[trigger] self.matrix@[i]@[i] == 0
    }

    /// Number of taxa.
    pub fn size(&self) -> (n: usize)
        ensures
            n == self.matrix@.len(),
    {
        self.matrix.len()
    }

    /// Build a matrix of integer distances (denominator one). Rejects a
    /// matrix whose length differs from the names', as the original
    /// collaborator contract demands.
    pub fn build(matrix: Vec<Vec<i128>>, names: Vec<String>) -> (r: Result<
        DistanceMatrix,
        NjError,
    >)
        ensures
            r is Ok <==> matrix@.len() == names@.len(),
            r matches Ok(d) ==> d.matrix == matrix && d.names == names && d.den == 1,
            r is Err ==> (r matches Err(NjError::InputInvalid(_))),
    {
        if matrix.len() != names.len() {
            return Err(NjError::InputInvalid(
                "matrix and names have different lengths".to_owned(),
            ));
        }
        Ok(DistanceMatrix { matrix, den: 1, names })
    }

    /// Build a matrix whose entries share the denominator `den`.
    pub fn build_scaled(matrix: Vec<Vec<i128>>, names: Vec<String>, den: i128) -> (r: Result<
        DistanceMatrix,
        NjError,
    >)
        ensures
            r is Ok <==> matrix@.len() == names@.len() && 1 <= den <= INPUT_CAP,
            r matches Ok(d) ==> d.matrix == matrix && d.names == names && d.den == den,
            r is Err ==> (r matches Err(NjError::InputInvalid(_))),
    {
        if matrix.len() != names.len() {
            return Err(NjError::InputInvalid(
                "matrix and names have different lengths".to_owned(),
            ));
        }
        if den < 1 || den > INPUT_CAP {
            return Err(NjError::InputInvalid("denominator out of range".to_owned()));
        }
        Ok(DistanceMatrix { matrix, den, names })
    }

    /// Check executably everything `valid_input` asks, reporting the first
    /// offence found.
    pub fn validate(&self) -> (r: Result<(), NjError>)
        ensures
            r is Ok <==> self.valid_input(),
            r is Err ==> (r matches Err(NjError::InputInvalid(_))),
    {
        let n = self.matrix.len();
        if self.names.len() != n {
            return Err(NjError::InputInvalid(
                "matrix and names have different lengths".to_owned(),
            ));
        }
        if n > MAX_TAXA {
            return Err(NjError::InputInvalid("too many taxa".to_owned()));
        }
        if self.den < 1 || self.den > INPUT_CAP {
            return Err(NjError::InputInvalid("denominator out of range".to_owned()));
        }
        let mut i: usize = 0;
        while i < n
            invariant
                n == self.matrix@.len(),
                i <= n,
                forall|a: int| 0 <= a < i ==> (#[trigger] self.matrix@[a])@.len() == n,
                forall|a: int, b: int|
                    0 <= a < i && 0 <= b < n ==> 0 <= #[trigger] self.matrix@[a]@[b] <= INPUT_CAP,
                forall|a: int| 0 <= a < i ==> #[trigger] self.matrix@[a]@[a] == 0,
                forall|a: int, b: int|
                    0 <= a < i && 0 <= b < a ==> #[trigger] self.matrix@[a]@[b]
                        == self.matrix@[b]@[a],
            decreases n - i,
        {
            if self.matrix[i].len() != n {
                return Err(NjError::InputInvalid("matrix is not square".to_owned()));
            }
            let mut j: usize = 0;
            while j < n
                invariant
                    n == self.matrix@.len(),
                    i < n,
                    j <= n,
                    self.matrix@[i as int]@.len() == n,
                    forall|a: int| 0 <= a < i ==> (#[trigger] self.matrix@[a])@.len() == n,
                    forall|b: int|
                        0 <= b < j ==> 0 <= #[trigger] self.matrix@[i as int]@[b] <= INPUT_CAP,
                    i < j ==> self.matrix@[i as int]@[i as int] == 0,
                    forall|b: int|
                        0 <= b < j && b < i ==> #[trigger] self.matrix@[i as int]@[b]
                            == self.matrix@[b]@[i as int],
                decreases n - j,
            {
                let v = self.matrix[i][j];
                if v < 0 {
                    return Err(NjError::InputInvalid("negative entry".to_owned()));
                }
                if v > INPUT_CAP {
                    return Err(NjError::InputInvalid("entry too large".to_owned()));
                }
                if j == i && v != 0 {
                    return Err(NjError::InputInvalid("nonzero diagonal entry".to_owned()));
                }
                if j < i {
                    if self.matrix[j][i] != v {
                        return Err(NjError::InputInvalid("matrix is not symmetric".to_owned()));
                    }
                }
                j += 1;
            }
            i += 1;
        }
        assert forall|a: int, b: int|
            0 <= a < n && 0 <= b < n implies #[trigger] self.matrix@[a]@[b]
            == self.matrix@[b]@[a] by {
            if b < a {
            } else if a < b {
                assert(self.matrix@[b]@[a] == self.matrix@[a]@[b]);
            }
        }
        Ok(())
    }
}

/// Relies on `String::from_utf8`: succeeds exactly on valid UTF-8 and
/// returns the string holding those very bytes.
#[verifier::external_body]
fn bytes_to_string(v: Vec<u8>) -> (r: Option<String>)
    ensures
        r is Some <==> vstd::utf8::valid_utf8(v@),
        r matches Some(s) ==> vstd::utf8::encode_utf8(s@) == v@,
{
    String::from_utf8(v).ok()
}

/// A PHYLIP whitespace byte: space, tab, or carriage return.
pub open spec fn blank(b: u8) -> bool {
    b == 32 || b == 9 || b == 13
}

fn is_blank(b: u8) -> (r: bool)
    ensures
        r == blank(b),
{
    b == 32 || b == 9 || b == 13
}

/// The input split at line feeds: one more line than there are feeds, a
/// trailing fragment being its own line.
pub open spec fn split_lines(s: Seq<u8>) -> Seq<Seq<u8>>
    decreases s.len(),
{
    if s.len() == 0 {
        seq![Seq::<u8>::empty()]
    } else {
        let rest = split_lines(s.drop_last());
        if s.last() == 10 {
            rest.push(Seq::<u8>::empty())
        } else {
            rest.update(rest.len() - 1, rest.last().push(s.last()))
        }
    }
}

/// A line split at whitespace into its maximal non-blank runs.
pub open spec fn split_tokens(s: Seq<u8>) -> Seq<Seq<u8>>
    decreases s.len(),
{
    if s.len() == 0 {
        Seq::empty()
    } else {
        let rest = split_tokens(s.drop_last());
        if blank(s.last()) {
            rest
        } else if s.len() == 1 || blank(s[s.len() - 2]) {
            rest.push(seq![s.last()])
        } else {
            rest.update(rest.len() - 1, rest.last().push(s.last()))
        }
    }
}

/// Split one line into its whitespace-separated tokens.
fn tokenize(line: &Vec<u8>) -> (r: Vec<Vec<u8>>)
    ensures
        r@.len() == split_tokens(line@).len(),
        forall|i: int| 0 <= i < r@.len() ==> (#[trigger] r@[i])@ == split_tokens(line@)[i],
{
    let n = line.len();
    let mut toks: Vec<Vec<u8>> = Vec::new();
    let mut cur: Vec<u8> = Vec::new();
    let mut k: usize = 0;
    while k < n
        invariant
            n == line@.len(),
            k <= n,
            split_tokens(line@.take(k as int)).len() == toks@.len() + (if cur@.len() == 0 {
                0int
            } else {
                1int
            }),
            forall|i: int|
                0 <= i < toks@.len() ==> (#[trigger] toks@[i])@ == split_tokens(
                    line@.take(k as int),
                )[i],
            cur@.len() > 0 ==> split_tokens(line@.take(k as int)).last() == cur@,
            cur@.len() > 0 ==> k > 0 && !blank(line@[k - 1]),
            cur@.len() == 0 ==> k == 0 || blank(line@[k - 1]),
        decreases n - k,
    {
        let b = line[k];
        proof {
            assert(line@.take(k as int + 1).drop_last() =~= line@.take(k as int));
            assert(line@.take(k as int + 1).last() == line@[k as int]);
        }
        if is_blank(b) {
            if cur.len() > 0 {
                toks.push(cur);
                cur = Vec::new();
            }
        } else {
            cur.push(b);
        }
        k += 1;
    }
    proof {
        assert(line@.take(n as int) =~= line@);
    }
    if cur.len() > 0 {
        toks.push(cur);
    }
    toks
}

/// Every byte is a decimal digit.
pub open spec fn all_digits(s: Seq<u8>) -> bool {
    forall|k: int| 0 <= k < s.len() ==> 48 <= #[trigger] s[k] <= 57
}

/// The value of a digit string.
pub open spec fn digits_val(s: Seq<u8>) -> int
    decreases s.len(),
{
    if s.len() == 0 {
        0
    } else {
        digits_val(s.drop_last()) * 10 + (s.last() - 48)
    }
}

proof fn lemma_digits_val_bound(s: Seq<u8>)
    requires
        all_digits(s),
    ensures
        0 <= digits_val(s) < p10(s.len() as int),
    decreases s.len(),
{
    if s.len() > 0 {
        lemma_digits_val_bound(s.drop_last());
    }
}

/// Parse an unsigned decimal integer of at most eight digits.
fn parse_usize(tok: &Vec<u8>) -> (r: Option<usize>)
    ensures
        r is Some <==> 1 <= tok@.len() <= 8 && all_digits(tok@),
        r matches Some(v) ==> v == digits_val(tok@),
{
    let n = tok.len();
    if n == 0 || n > 8 {
        return None;
    }
    let mut v: usize = 0;
    let mut k: usize = 0;
    while k < n
        invariant
            n == tok@.len(),
            n <= 8,
            k <= n,
            all_digits(tok@.take(k as int)),
            v == digits_val(tok@.take(k as int)),
            v < p10(k as int),
        decreases n - k,
    {
        let b = tok[k];
        if b < 48 || b > 57 {
            proof {
                assert(!all_digits(tok@));
            }
            return None;
        }
        proof {
            assert(tok@.take(k as int + 1).drop_last() =~= tok@.take(k as int));
            assert(tok@.take(k as int + 1).last() == tok@[k as int]);
            lemma_p10_mono(k as int + 1, 8);
            lemma_p10_8();
        }
        v = v * 10 + ((b - 48) as usize);
        k += 1;
    }
    proof {
        assert(tok@.take(n as int) =~= tok@);
    }
    Some(v)
}

/// The first position at or after `k` holding a point, or minus one.
pub open spec fn fd_from(s: Seq<u8>, k: int) -> int
    decreases s.len() - k,
{
    if k < 0 || k >= s.len() {
        -1
    } else if s[k] == 46 {
        k
    } else {
        fd_from(s, k + 1)
    }
}

/// The digits of a decimal token, sign stripped.
pub open spec fn dec_body(tok: Seq<u8>) -> Seq<u8> {
    if tok.len() > 0 && tok[0] == 45 {
        tok.subrange(1, tok.len() as int)
    } else {
        tok
    }
}

pub open spec fn dec_sign(tok: Seq<u8>) -> int {
    if tok.len() > 0 && tok[0] == 45 {
        -1
    } else {
        1
    }
}

/// The integer part: everything before the point, or the whole body.
pub open spec fn dec_ip(tok: Seq<u8>) -> Seq<u8> {
    let b = dec_body(tok);
    let fd = fd_from(b, 0);
    if fd < 0 {
        b
    } else {
        b.subrange(0, fd)
    }
}

/// The fractional part: everything after the point, or nothing.
pub open spec fn dec_fp(tok: Seq<u8>) -> Seq<u8> {
    let b = dec_body(tok);
    let fd = fd_from(b, 0);
    if fd < 0 {
        Seq::empty()
    } else {
        b.subrange(fd + 1, b.len() as int)
    }
}

/// A well-formed decimal: an optional sign, digits with at most one point,
/// at least one digit, and at most eighteen digits on either side.
pub open spec fn dec_valid(tok: Seq<u8>) -> bool {
    &&& all_digits(dec_ip(tok))
    &&& all_digits(dec_fp(tok))
    &&& dec_ip(tok).len() + dec_fp(tok).len() >= 1
    &&& dec_ip(tok).len() <= 18
    &&& dec_fp(tok).len() <= 18
}

/// How many digits lie behind the point.
pub open spec fn dec_frac(tok: Seq<u8>) -> int {
    dec_fp(tok).len() as int
}

/// The signed mantissa: the digits with the point dropped.
pub open spec fn dec_mant(tok: Seq<u8>) -> int {
    dec_sign(tok) * (digits_val(dec_ip(tok)) * p10(dec_fp(tok).len() as int) + digits_val(
        dec_fp(tok),
    ))
}

/// Parse a decimal number into its scaled mantissa and its count of
/// fractional digits.
fn parse_decimal(tok: &Vec<u8>) -> (r: Option<(i128, u32)>)
    ensures
        r is Some <==> dec_valid(tok@),
        r matches Some(p) ==> p.0 == dec_mant(tok@) && p.1 == dec_frac(tok@),
        r matches Some(p) ==> p.1 <= 18 && -2_000_000_000_000_000_000_000_000_000_000_000_000i128
            <= p.0 <= 2_000_000_000_000_000_000_000_000_000_000_000_000i128,
{
    let n = tok.len();
    let start: usize = if n > 0 && tok[0] == 45 {
        1
    } else {
        0
    };
    let ghost body = dec_body(tok@);
    proof {
        assert(body =~= tok@.subrange(start as int, n as int));
    }
    // find the point
    let mut k: usize = start;
    while k < n && tok[k] != 46
        invariant
            n == tok@.len(),
            start <= k <= n,
            start <= n,
            body == dec_body(tok@),
            body =~= tok@.subrange(start as int, n as int),
            fd_from(body, 0) == fd_from(body, k - start),
            forall|x: int| 0 <= x < k - start ==> #[trigger] body[x] != 46,
        decreases n - k,
    {
        proof {
            assert(body[k - start] == tok@[k as int]);
        }
        k += 1;
    }
    let ghost fd = fd_from(body, 0);
    proof {
        if k == n {
            assert(fd == -1);
        } else {
            assert(body[k - start] == tok@[k as int]);
            assert(fd == k - start);
        }
    }
    let ip_end = k;
    let fp_start: usize = if k < n {
        k + 1
    } else {
        k
    };
    let ghost ip = dec_ip(tok@);
    let ghost fp = dec_fp(tok@);
    proof {
        assert(ip =~= tok@.subrange(start as int, ip_end as int));
        assert(fp =~= tok@.subrange(fp_start as int, n as int));
    }
    let ip_len = ip_end - start;
    let fp_len = n - fp_start;
    if ip_len + fp_len < 1 || ip_len > 18 || fp_len > 18 {
        return None;
    }
    // the integer part's digits and value
    let mut dvi: i128 = 0;
    let mut x: usize = start;
    while x < ip_end
        invariant
            n == tok@.len(),
            start <= x <= ip_end <= n,
            ip == dec_ip(tok@),
            ip =~= tok@.subrange(start as int, ip_end as int),
            ip.len() <= 18,
            all_digits(ip.take(x - start)),
            dvi == digits_val(ip.take(x - start)),
            0 <= dvi < p10(x - start),
        decreases ip_end - x,
    {
        let b = tok[x];
        if b < 48 || b > 57 {
            proof {
                assert(ip[x - start] == tok@[x as int]);
                assert(!all_digits(ip));
            }
            return None;
        }
        proof {
            assert(ip.take(x - start + 1).drop_last() =~= ip.take(x - start));
            assert(ip.take(x - start + 1).last() == ip[x - start]);
            assert(ip[x - start] == tok@[x as int]);
            lemma_p10_mono(x - start + 1, 18);
            lemma_p10_18();
        }
        dvi = dvi * 10 + ((b - 48) as i128);
        x += 1;
    }
    proof {
        assert(ip.take(ip_end - start) =~= ip);
    }
    // the fractional part's digits and value
    let mut dvf: i128 = 0;
    let mut y: usize = fp_start;
    while y < n
        invariant
            n == tok@.len(),
            fp_start <= y <= n,
            fp == dec_fp(tok@),
            fp =~= tok@.subrange(fp_start as int, n as int),
            fp.len() <= 18,
            all_digits(fp.take(y - fp_start)),
            dvf == digits_val(fp.take(y - fp_start)),
            0 <= dvf < p10(y - fp_start),
        decreases n - y,
    {
        let b = tok[y];
        if b < 48 || b > 57 {
            proof {
                assert(fp[y - fp_start] == tok@[y as int]);
                assert(!all_digits(fp));
            }
            return None;
        }
        proof {
            assert(fp.take(y - fp_start + 1).drop_last() =~= fp.take(y - fp_start));
            assert(fp.take(y - fp_start + 1).last() == fp[y - fp_start]);
            assert(fp[y - fp_start] == tok@[y as int]);
            lemma_p10_mono(y - fp_start + 1, 18);
            lemma_p10_18();
        }
        dvf = dvf * 10 + ((b - 48) as i128);
        y += 1;
    }
    proof {
        assert(fp.take(n - fp_start) =~= fp);
        lemma_p10_mono(ip_len as int, 18);
        lemma_p10_mono(fp_len as int, 18);
        lemma_p10_18();
        assert(dvi * p10(fp_len as int) <= 1_000_000_000_000_000_000i128
            * 1_000_000_000_000_000_000i128) by (nonlinear_arith)
            requires
                0 <= dvi <= 1_000_000_000_000_000_000i128,
                0 <= p10(fp_len as int) <= 1_000_000_000_000_000_000i128,
        ;
        assert(dvi * p10(fp_len as int) >= 0) by (nonlinear_arith)
            requires
                0 <= dvi,
                0 <= p10(fp_len as int),
        ;
    }
    let scale = pow10(fp_len as u32);
    let mant = dvi * scale + dvf;
    if start == 1 {
        Some((-mant, fp_len as u32))
    } else {
        Some((mant, fp_len as u32))
    }
}

/// Ten to the `k`, as a mathematical value.
pub open spec fn p10(k: int) -> int
    decreases k,
{
    if k <= 0 {
        1
    } else {
        10 * p10(k - 1)
    }
}

proof fn lemma_p10_mono(a: int, b: int)
    requires
        0 <= a <= b,
    ensures
        1 <= p10(a) <= p10(b),
    decreases b,
{
    if b > 0 {
        if a == b {
            lemma_p10_mono(a - 1, b - 1);
        } else {
            lemma_p10_mono(a, b - 1);
        }
    }
}

proof fn lemma_p10_18()
    ensures
        p10(18) == 1_000_000_000_000_000_000,
{
    reveal_with_fuel(p10, 20);
}

proof fn lemma_p10_8()
    ensures
        p10(8) == 100_000_000,
{
    reveal_with_fuel(p10, 10);
}

/// Ten to the `e`, for small `e`.
fn pow10(e: u32) -> (r: i128)
    requires
        e <= 18,
    ensures
        1 <= r <= 1_000_000_000_000_000_000i128,
        r == p10(e as int),
{
    let mut r: i128 = 1;
    let mut k: u32 = 0;
    while k < e
        invariant
            k <= e <= 18,
            1 <= r,
            r == p10(k as int),
        decreases e - k,
    {
        proof {
            lemma_p10_mono(k as int, 17);
            lemma_p10_mono(17, 18);
            lemma_p10_18();
        }
        r = r * 10;
        k += 1;
    }
    proof {
        lemma_p10_mono(e as int, 18);
        lemma_p10_18();
    }
    r
}

/// One row of the expected grammar, for `n` taxa under the dominating
/// fraction count `mf`: a name token of valid UTF-8 and `n` decimals,
/// each of whose scaled magnitudes stays within `INPUT_CAP`.
pub open spec fn wf_row(line: Seq<u8>, n: int, mf: int) -> bool {
    let tk = split_tokens(line);
    &&& tk.len() == n + 1
    &&& vstd::utf8::valid_utf8(tk[0])
    &&& forall|j: int|
        0 <= j < n ==> dec_valid(#[trigger] tk[j + 1]) && dec_frac(tk[j + 1]) <= mf
            && -INPUT_CAP <= dec_mant(tk[j + 1]) * p10(mf - dec_frac(tk[j + 1])) <= INPUT_CAP
}

/// Every row line is well formed for `n` taxa under the bound `mf`.
pub open spec fn wf_rows_under(input: Seq<u8>, n: int, mf: int) -> bool {
    forall|i: int| 0 <= i < n ==> #[trigger] wf_row(split_lines(input)[i + 1], n, mf)
}

/// Well-formed PHYLIP text: a first line holding just the number of taxa
/// (one to eight digits, at most one hundred thousand), that many further
/// lines each with a name and a full row of decimals, and some fraction
/// bound under which every scaled entry fits the input capacity. On such
/// text the parser is bound to succeed.
pub open spec fn wf_phylip(input: Seq<u8>) -> bool {
    let ls = split_lines(input);
    let head = split_tokens(ls[0]);
    &&& head.len() == 1
    &&& 1 <= head[0].len() <= 8
    &&& all_digits(head[0])
    &&& 1 <= digits_val(head[0]) <= 100_000
    &&& ls.len() >= digits_val(head[0]) + 1
    &&& exists|mf: int|
        0 <= mf <= 18 && #[trigger] wf_rows_under(input, digits_val(head[0]), mf)
}

/// One parsed row: the name holds exactly the first token's bytes, and
/// entry `j` is the `j+1`-th token's mantissa scaled up to the common
/// fraction count `mf`.
pub open spec fn row_parses_to(line: Seq<u8>, d: DistanceMatrix, i: int, mf: int) -> bool {
    let tk = split_tokens(line);
    &&& tk.len() == d.matrix@.len() + 1
    &&& vstd::utf8::encode_utf8(d.names@[i]@) == tk[0]
    &&& d.matrix@[i]@.len() == d.matrix@.len()
    &&& forall|j: int|
        0 <= j < d.matrix@.len() ==> dec_valid(#[trigger] tk[j + 1]) && dec_frac(tk[j + 1])
            <= mf && d.matrix@[i]@[j] == dec_mant(tk[j + 1]) * p10(mf - dec_frac(tk[j + 1]))
}

/// What a successful parse returns, relative to the input bytes: the
/// taxon count is the first line's number, and names and entries come
/// from the rows, entries scaled over the denominator `10^mf`.
pub open spec fn phylip_parses_to(input: Seq<u8>, d: DistanceMatrix, mf: int) -> bool {
    let ls = split_lines(input);
    let head = split_tokens(ls[0]);
    &&& head.len() == 1
    &&& 1 <= head[0].len() <= 8
    &&& all_digits(head[0])
    &&& d.matrix@.len() == digits_val(head[0])
    &&& d.names@.len() == d.matrix@.len()
    &&& 1 <= d.matrix@.len()
    &&& ls.len() >= d.matrix@.len() + 1
    &&& 0 <= mf <= 18
    &&& d.den == p10(mf)
    &&& forall|i: int|
        0 <= i < d.matrix@.len() ==> #[trigger] row_parses_to(split_lines(input)[i + 1], d, i, mf)
}

/// Read a PHYLIP-style distance matrix: the first line holds the number
/// of taxa, each following line one taxon's name and its whole row of
/// decimal distances. Decimals become exact scaled integers over one
/// common power-of-ten denominator. A success is exactly the parse of the
/// input bytes, and well-formed text is owed one; validity of the parsed
/// values (symmetry, zero diagonal, no negatives) is the solvers' check.
#[verifier::rlimit(100)]
#[verifier::spinoff_prover]
pub fn read_phylip_distance_matrix(input: &[u8]) -> (r: Result<DistanceMatrix, NjError>)
    ensures
        r matches Ok(d) ==> d.consistent() && 1 <= d.den <= INPUT_CAP && (exists|mf: int|
            #[trigger] phylip_parses_to(input@, d, mf)),
        r is Err ==> (r matches Err(NjError::InputInvalid(_))),
        wf_phylip(input@) ==> r is Ok,
{
    let ghost wfp = wf_phylip(input@);
    let ghost mfw: int = if wfp {
        choose|mf: int|
            0 <= mf <= 18 && #[trigger] wf_rows_under(
                input@,
                digits_val(split_tokens(split_lines(input@)[0])[0]),
                mf,
            )
    } else {
        0
    };
    let ghost ls = split_lines(input@);
    let mut lines: Vec<Vec<u8>> = Vec::new();
    let mut cur: Vec<u8> = Vec::new();
    let len = input.len();
    let mut k: usize = 0;
    while k < len
        invariant
            len == input@.len(),
            k <= len,
            ls == split_lines(input@),
            split_lines(input@.take(k as int)).len() == lines@.len() + 1,
            forall|i: int|
                0 <= i < lines@.len() ==> (#[trigger] lines@[i])@ == split_lines(
                    input@.take(k as int),
                )[i],
            cur@ == split_lines(input@.take(k as int)).last(),
        decreases len - k,
    {
        let b = input[k];
        proof {
            assert(input@.take(k as int + 1).drop_last() =~= input@.take(k as int));
            assert(input@.take(k as int + 1).last() == input@[k as int]);
        }
        if b == 10 {
            lines.push(cur);
            cur = Vec::new();
        } else {
            cur.push(b);
        }
        k += 1;
    }
    proof {
        assert(input@.take(len as int) =~= input@);
    }
    lines.push(cur);
    proof {
        assert(lines@.len() == ls.len());
        assert(forall|i: int| 0 <= i < lines@.len() ==> (#[trigger] lines@[i])@ == ls[i]);
    }
    let head = tokenize(&lines[0]);
    let ghost hd = split_tokens(ls[0]);
    if head.len() != 1 {
        proof {
            if wfp {
                assert(false);
            }
        }
        return Err(NjError::InputInvalid(
            "the first line must hold the number of taxa".to_owned(),
        ));
    }
    let n = match parse_usize(&head[0]) {
        Some(v) => v,
        None => {
            proof {
                if wfp {
                    assert(head@[0]@ == hd[0]);
                    assert(false);
                }
            }
            return Err(NjError::InputInvalid("the first line must hold a number".to_owned()));
        },
    };
    proof {
        assert(head@[0]@ == hd[0]);
        assert(n == digits_val(hd[0]));
    }
    if n == 0 {
        proof {
            if wfp {
                assert(false);
            }
        }
        return Err(NjError::InputInvalid("a matrix needs at least one taxon".to_owned()));
    }
    if n > 100_000 || lines.len() < n + 1 {
        proof {
            if wfp {
                assert(false);
            }
        }
        return Err(NjError::InputInvalid("fewer matrix lines than taxa".to_owned()));
    }
    let mut names: Vec<String> = Vec::new();
    let mut raw: Vec<Vec<(i128, u32)>> = Vec::new();
    let mut maxf: u32 = 0;
    let mut i: usize = 0;
    while i < n
        invariant
            wfp == wf_phylip(input@),
            wfp ==> 0 <= mfw <= 18 && (forall|x: int|
                0 <= x < n ==> #[trigger] wf_row(ls[x + 1], n as int, mfw)),
            ls == split_lines(input@),
            n == digits_val(split_tokens(ls[0])[0]),
            split_tokens(ls[0]).len() == 1,
            i <= n,
            1 <= n <= 100_000,
            lines@.len() >= n + 1,
            lines@.len() == ls.len(),
            forall|x: int| 0 <= x < lines@.len() ==> (#[trigger] lines@[x])@ == ls[x],
            names@.len() == i,
            raw@.len() == i,
            maxf <= 18,
            wfp ==> maxf <= mfw,
            forall|x: int|
                0 <= x < i ==> #[trigger] split_tokens(ls[x + 1]).len() == n + 1,
            forall|x: int|
                0 <= x < i ==> vstd::utf8::encode_utf8((#[trigger] names@[x])@) == split_tokens(
                    ls[x + 1],
                )[0],
            forall|x: int| 0 <= x < i ==> (#[trigger] raw@[x])@.len() == n,
            forall|x: int, y: int|
                0 <= x < i && 0 <= y < n ==> dec_valid(#[trigger] split_tokens(ls[x + 1])[y + 1]),
            forall|x: int, y: int|
                0 <= x < i && 0 <= y < n ==> ((#[trigger] raw@[x]@[y]).0 == dec_mant(
                    split_tokens(ls[x + 1])[y + 1],
                ) && raw@[x]@[y].1 == dec_frac(split_tokens(ls[x + 1])[y + 1]) && raw@[x]@[y].1
                    <= maxf),
        decreases n - i,
    {
        let mut toks = tokenize(&lines[i + 1]);
        let ghost tk = split_tokens(ls[i + 1]);
        if toks.len() != n + 1 {
            proof {
                if wfp {
                    assert(wf_row(ls[i + 1], n as int, mfw));
                    assert(false);
                }
            }
            return Err(NjError::InputInvalid(
                "a row holds a name and one distance per taxon".to_owned(),
            ));
        }
        let name_bytes = toks.remove(0);
        proof {
            assert(name_bytes@ == tk[0]);
            assert(forall|y: int| 0 <= y < n ==> (#[trigger] toks@[y])@ == tk[y + 1]);
        }
        let name = match bytes_to_string(name_bytes) {
            Some(s) => s,
            None => {
                proof {
                    if wfp {
                        assert(wf_row(ls[i + 1], n as int, mfw));
                        assert(false);
                    }
                }
                return Err(NjError::InputInvalid("a taxon name must be text".to_owned()));
            },
        };
        let mut row: Vec<(i128, u32)> = Vec::new();
        let mut j: usize = 0;
        while j < n
            invariant
                wfp == wf_phylip(input@),
                wfp ==> 0 <= mfw <= 18 && wf_row(ls[i + 1], n as int, mfw),
                ls == split_lines(input@),
                tk == split_tokens(ls[i + 1]),
                i < n,
                j <= n,
                toks@.len() == n,
                forall|y: int| 0 <= y < n ==> (#[trigger] toks@[y])@ == tk[y + 1],
                tk.len() == n + 1,
                row@.len() == j,
                maxf <= 18,
                wfp ==> maxf <= mfw,
                raw@.len() == i,
                forall|x: int, y: int|
                    0 <= x < i && 0 <= y < n ==> (#[trigger] raw@[x]@[y]).1 <= maxf,
                forall|y: int| 0 <= y < j ==> dec_valid(#[trigger] tk[y + 1]),
                forall|y: int|
                    0 <= y < j ==> ((#[trigger] row@[y]).0 == dec_mant(tk[y + 1]) && row@[y].1
                        == dec_frac(tk[y + 1]) && row@[y].1 <= maxf),
            decreases n - j,
        {
            let p = match parse_decimal(&toks[j]) {
                Some(p) => p,
                None => {
                    proof {
                        if wfp {
                            assert(false);
                        }
                    }
                    return Err(NjError::InputInvalid(
                        "a distance must be a decimal number".to_owned(),
                    ));
                },
            };
            if p.1 > maxf {
                proof {
                    if wfp {
                        assert(dec_frac(tk[j + 1]) <= mfw);
                    }
                }
                maxf = p.1;
            }
            row.push(p);
            j += 1;
        }
        names.push(name);
        raw.push(row);
        i += 1;
    }
    let den = pow10(maxf);
    let mut matrix: Vec<Vec<i128>> = Vec::new();
    let mut i2: usize = 0;
    while i2 < n
        invariant
            wfp == wf_phylip(input@),
            wfp ==> 0 <= mfw <= 18 && maxf <= mfw && (forall|x: int|
                0 <= x < n ==> #[trigger] wf_row(ls[x + 1], n as int, mfw)),
            ls == split_lines(input@),
            i2 <= n,
            1 <= n <= 100_000,
            maxf <= 18,
            den == p10(maxf as int),
            1 <= den <= 1_000_000_000_000_000_000i128,
            raw@.len() == n,
            forall|x: int| 0 <= x < n ==> (#[trigger] raw@[x])@.len() == n,
            forall|x: int| 0 <= x < n ==> #[trigger] split_tokens(ls[x + 1]).len() == n + 1,
            forall|x: int, y: int|
                0 <= x < n && 0 <= y < n ==> dec_valid(#[trigger] split_tokens(ls[x + 1])[y + 1]),
            forall|x: int, y: int|
                0 <= x < n && 0 <= y < n ==> ((#[trigger] raw@[x]@[y]).0 == dec_mant(
                    split_tokens(ls[x + 1])[y + 1],
                ) && raw@[x]@[y].1 == dec_frac(split_tokens(ls[x + 1])[y + 1]) && raw@[x]@[y].1
                    <= maxf),
            matrix@.len() == i2,
            forall|x: int| 0 <= x < i2 ==> (#[trigger] matrix@[x])@.len() == n,
            forall|x: int, y: int|
                0 <= x < i2 && 0 <= y < n ==> #[trigger] matrix@[x]@[y] == dec_mant(
                    split_tokens(ls[x + 1])[y + 1],
                ) * p10(maxf - dec_frac(split_tokens(ls[x + 1])[y + 1])),
        decreases n - i2,
    {
        let mut row: Vec<i128> = Vec::new();
        let mut j2: usize = 0;
        while j2 < n
            invariant
                wfp == wf_phylip(input@),
                wfp ==> 0 <= mfw <= 18 && maxf <= mfw && wf_row(ls[i2 + 1], n as int, mfw),
                ls == split_lines(input@),
                i2 < n,
                j2 <= n,
                maxf <= 18,
                den == p10(maxf as int),
                1 <= den <= 1_000_000_000_000_000_000i128,
                raw@.len() == n,
                forall|x: int| 0 <= x < n ==> (#[trigger] raw@[x])@.len() == n,
                split_tokens(ls[i2 + 1]).len() == n + 1,
                forall|y: int|
                    0 <= y < n ==> dec_valid(#[trigger] split_tokens(ls[i2 + 1])[y + 1]),
                forall|y: int|
                    0 <= y < n ==> ((#[trigger] raw@[i2 as int]@[y]).0 == dec_mant(
                        split_tokens(ls[i2 + 1])[y + 1],
                    ) && raw@[i2 as int]@[y].1 == dec_frac(split_tokens(ls[i2 + 1])[y + 1])
                        && raw@[i2 as int]@[y].1 <= maxf),
                row@.len() == j2,
                forall|y: int|
                    0 <= y < j2 ==> #[trigger] row@[y] == dec_mant(
                        split_tokens(ls[i2 + 1])[y + 1],
                    ) * p10(maxf - dec_frac(split_tokens(ls[i2 + 1])[y + 1])),
            decreases n - j2,
        {
            let p = raw[i2][j2];
            let ghost tkn = split_tokens(ls[i2 + 1])[j2 + 1];
            if p.0 > INPUT_CAP || p.0 < -INPUT_CAP {
                proof {
                    if wfp {
                        lemma_cap_transfer(dec_mant(tkn), dec_frac(tkn), maxf as int, mfw);
                        assert(false);
                    }
                }
                return Err(NjError::InputInvalid("a distance is too large".to_owned()));
            }
            let scale = pow10(maxf - p.1);
            proof {
                assert(-INPUT_CAP * 1_000_000_000_000_000_000i128 <= p.0 * scale <= INPUT_CAP
                    * 1_000_000_000_000_000_000i128) by (nonlinear_arith)
                    requires
                        -INPUT_CAP <= p.0 <= INPUT_CAP,
                        1 <= scale <= 1_000_000_000_000_000_000i128,
                ;
            }
            let num = p.0 * scale;
            if num > INPUT_CAP || num < -INPUT_CAP {
                proof {
                    if wfp {
                        lemma_cap_transfer(dec_mant(tkn), dec_frac(tkn), maxf as int, mfw);
                        assert(false);
                    }
                }
                return Err(NjError::InputInvalid("a distance is too large".to_owned()));
            }
            row.push(num);
            j2 += 1;
        }
        matrix.push(row);
        i2 += 1;
    }
    let d = DistanceMatrix { matrix, den, names };
    proof {
        assert forall|x: int|
            0 <= x < n implies #[trigger] row_parses_to(ls[x + 1], d, x, maxf as int) by {
            assert(split_tokens(ls[x + 1]).len() == n + 1);
            assert(vstd::utf8::encode_utf8(d.names@[x]@) == split_tokens(ls[x + 1])[0]);
            assert(d.matrix@[x]@.len() == n);
            assert forall|j: int|
                0 <= j < n implies dec_valid(#[trigger] split_tokens(ls[x + 1])[j + 1])
                && dec_frac(split_tokens(ls[x + 1])[j + 1]) <= maxf && d.matrix@[x]@[j]
                == dec_mant(split_tokens(ls[x + 1])[j + 1]) * p10(
                maxf - dec_frac(split_tokens(ls[x + 1])[j + 1]),
            ) by {
                assert(raw@[x]@[j].1 <= maxf);
            }
        }
        assert(phylip_parses_to(input@, d, maxf as int));
    }
    Ok(d)
}

/// A mantissa whose scaling to the dominating fraction count fits the
/// capacity also fits at any smaller count, and fits unscaled.
proof fn lemma_cap_transfer(m: int, f: int, maxf: int, mf: int)
    requires
        0 <= f <= maxf <= mf <= 18,
        -INPUT_CAP <= m * p10(mf - f) <= INPUT_CAP,
    ensures
        -INPUT_CAP <= m <= INPUT_CAP,
        -INPUT_CAP <= m * p10(maxf - f) <= INPUT_CAP,
{
    lemma_p10_mono(maxf - f, mf - f);
    assert(-INPUT_CAP <= m <= INPUT_CAP) by (nonlinear_arith)
        requires
            -INPUT_CAP <= m * p10(mf - f) <= INPUT_CAP,
            1 <= p10(mf - f),
    ;
    assert(-INPUT_CAP <= m * p10(maxf - f) <= INPUT_CAP) by (nonlinear_arith)
        requires
            -INPUT_CAP <= m * p10(mf - f) <= INPUT_CAP,
            1 <= p10(maxf - f) <= p10(mf - f),
    ;
}

impl DistanceMatrix {
    /// Read a matrix from PHYLIP text; the guarantees are those of
    /// `read_phylip_distance_matrix`.
    pub fn read_from_phylip(input: &[u8]) -> (r: Result<DistanceMatrix, NjError>)
        ensures
            r matches Ok(d) ==> d.consistent() && 1 <= d.den <= INPUT_CAP && (exists|mf: int|
                #[trigger] phylip_parses_to(input@, d, mf)),
            r is Err ==> (r matches Err(NjError::InputInvalid(_))),
            wf_phylip(input@) ==> r is Ok,
    {
        read_phylip_distance_matrix(input)
    }
}

} // verus!