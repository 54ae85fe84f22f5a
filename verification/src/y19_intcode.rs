//! The first intcode machine: additions and multiplications on a program
//! that is its own memory.

use vstd::prelude::*;
use crate::text::{chars_of, parse_uint, string_from_chars, trim_chars, trimmed, uint_value};

verus! {

/// Errors met while loading or running an intcode program.
#[derive(Debug)]
pub enum Error {
    /// The input held no program.
    EmptyError,
    /// A value that is not an unsigned integer.
    ParseIntError(String),
    /// A read or write at an index outside the program.
    IndexError(usize),
    /// An operation code that is neither 1, 2 nor 99.
    InvalidOpCode(u32),
}

/// The pieces of `s` between commas, as `str::split(',')` gives them: one
/// more than there are commas.
pub open spec fn split_commas(s: Seq<char>) -> Seq<Seq<char>>
    decreases s.len(),
{
    if s.len() == 0 {
        seq![Seq::<char>::empty()]
    } else {
        let p = split_commas(s.drop_last());
        if s.last() == ',' {
            p.push(Seq::<char>::empty())
        } else {
            p.update(p.len() - 1, p.last().push(s.last()))
        }
    }
}

proof fn lemma_split_nonempty(s: Seq<char>)
    ensures
        split_commas(s).len() >= 1,
    decreases s.len(),
{
    if s.len() > 0 {
        lemma_split_nonempty(s.drop_last());
    }
}

/// The value that one piece writes, without white space at either end,
/// where it fits in `u32`.
#[verifier::opaque]
pub open spec fn code_of(piece: Seq<char>) -> Option<u32> {
    match uint_value(trimmed(piece)) {
        Some(v) => if 0 <= v <= u32::MAX {
            Some(v as u32)
        } else {
            None
        },
        None => None,
    }
}

/// The values that the pieces write, in order; the first piece that writes
/// none is the error.
pub open spec fn codes_read(pieces: Seq<Seq<char>>) -> Result<Seq<u32>, Seq<char>>
    decreases pieces.len(),
{
    if pieces.len() == 0 {
        Ok(Seq::empty())
    } else {
        match codes_read(pieces.drop_last()) {
            Err(p) => Err(p),
            Ok(l) => match code_of(pieces.last()) {
                Some(c) => Ok(l.push(c)),
                None => Err(pieces.last()),
            },
        }
    }
}

proof fn lemma_codes_err(ps: Seq<Seq<char>>, k: int)
    requires
        0 <= k <= ps.len(),
        codes_read(ps.take(k)) is Err,
    ensures
        codes_read(ps) == codes_read(ps.take(k)),
    decreases ps.len() - k,
{
    if k < ps.len() {
        assert(ps.take(k + 1).drop_last() =~= ps.take(k));
        lemma_codes_err(ps, k + 1);
    } else {
        assert(ps.take(k) =~= ps);
    }
}

/// The pieces of `chars` between commas.
fn split_on_commas(chars: &Vec<char>) -> (res: Vec<Vec<char>>)
    ensures
        res@.len() == split_commas(chars@).len(),
        forall|i: int| 0 <= i < res@.len() ==> #[trigger] res@[i]@ == split_commas(chars@)[i],
{
    let mut done: Vec<Vec<char>> = Vec::new();
    let mut cur: Vec<char> = Vec::new();
    let mut k: usize = 0;
    while k < chars.len()
        invariant
            k <= chars.len(),
            split_commas(chars@.take(k as int)).len() == done.len() + 1,
            forall|i: int| 0 <= i < done.len() ==> #[trigger] done@[i]@ == split_commas(chars@.take(k as int))[i],
            cur@ == split_commas(chars@.take(k as int)).last(),
        decreases chars.len() - k,
    {
        proof {
            assert(chars@.take(k + 1).drop_last() =~= chars@.take(k as int));
            assert(chars@.take(k + 1).last() == chars@[k as int]);
            lemma_split_nonempty(chars@.take(k as int));
        }
        let c = chars[k];
        if c == ',' {
            done.push(cur);
            cur = Vec::new();
            proof {
                assert(cur@ =~= Seq::<char>::empty());
            }
        } else {
            cur.push(c);
        }
        k = k + 1;
    }
    proof {
        assert(chars@.take(k as int) =~= chars@);
    }
    done.push(cur);
    done
}

/// The value that one piece writes.
fn parse_code_piece(piece: &Vec<char>) -> (res: Option<u32>)
    ensures
        res == code_of(piece@),
{
    let t = trim_chars(piece);
    let ts = string_from_chars(&t);
    let parsed = parse_uint(ts.as_str(), u32::MAX as u64);
    proof {
        reveal(code_of);
    }
    match parsed {
        Some(v) => Some(v as u32),
        None => None,
    }
}

/// Reads a program from a line of comma-separated unsigned values, each
/// maybe with white space around it; the first piece that is no value is
/// the error, as written.
pub fn parse_int_code(line: &str) -> (res: Result<Vec<u32>, Error>)
    ensures
        match codes_read(split_commas(line@)) {
            Ok(l) => res matches Ok(v) && v@ == l,
            Err(p) => res matches Err(Error::ParseIntError(t)) && t@ == p,
        },
{
    let chars = chars_of(line);
    let pieces = split_on_commas(&chars);
    let ghost ps = split_commas(line@);
    let mut codes: Vec<u32> = Vec::new();
    let mut i: usize = 0;
    while i < pieces.len()
        invariant
            i <= pieces.len() == ps.len(),
            ps == split_commas(line@),
            forall|j: int| 0 <= j < pieces@.len() ==> #[trigger] pieces@[j]@ == ps[j],
            codes_read(ps.take(i as int)) == Ok::<Seq<u32>, Seq<char>>(codes@),
        decreases pieces.len() - i,
    {
        proof {
            assert(ps.take(i + 1).drop_last() =~= ps.take(i as int));
            assert(ps.take(i + 1).last() == ps[i as int]);
        }
        let piece = &pieces[i];
        match parse_code_piece(piece) {
            Some(v) => {
                codes.push(v);
            },
            None => {
                proof {
                    lemma_codes_err(ps, i + 1);
                }
                return Err(Error::ParseIntError(string_from_chars(piece)));
            },
        }
        i = i + 1;
    }
    proof {
        assert(ps.take(i as int) =~= ps);
    }
    Ok(codes)
}

/// What running a program from instruction `p`, after `steps` finished
/// instructions, leaves in memory and returns.
pub open spec fn run_int_code(code: Seq<u32>, p: int, steps: nat) -> (Seq<u32>, Result<nat, Error>)
    decreases code.len() - p,
{
    if p < 0 || p >= code.len() {
        (code, Err(Error::IndexError(p as usize)))
    } else if p + 1 >= code.len() {
        (code, Err(Error::IndexError((p + 1) as usize)))
    } else if p + 2 >= code.len() {
        (code, Err(Error::IndexError((p + 2) as usize)))
    } else if p + 3 >= code.len() {
        (code, Err(Error::IndexError((p + 3) as usize)))
    } else {
        let op = code[p];
        let in0 = code[p + 1] as int;
        let in1 = code[p + 2] as int;
        let out = code[p + 3] as int;
        if op == 99 {
            (code, Ok(steps))
        } else if op != 1 && op != 2 {
            (code, Err(Error::InvalidOpCode(op)))
        } else if in0 >= code.len() {
            (code, Err(Error::IndexError(in0 as usize)))
        } else if in1 >= code.len() {
            (code, Err(Error::IndexError(in1 as usize)))
        } else if out >= code.len() {
            (code, Err(Error::IndexError(out as usize)))
        } else {
            let v = if op == 1 { code[in0] + code[in1] } else { code[in0] * code[in1] };
            run_int_code(code.update(out, v as u32), p + 4, steps + 1)
        }
    }
}

/// Whether running a program from instruction `p` computes a sum or product
/// that a 32-bit unsigned integer cannot hold.
pub open spec fn int_code_overflows(code: Seq<u32>, p: int) -> bool
    decreases code.len() - p,
{
    if p < 0 || p + 3 >= code.len() {
        false
    } else {
        let op = code[p];
        let in0 = code[p + 1] as int;
        let in1 = code[p + 2] as int;
        let out = code[p + 3] as int;
        if (op != 1 && op != 2) || in0 >= code.len() || in1 >= code.len() || out >= code.len() {
            false
        } else {
            let v = if op == 1 { code[in0] + code[in1] } else { code[in0] * code[in1] };
            v > u32::MAX || int_code_overflows(code.update(out, v as u32), p + 4)
        }
    }
}

/// Whether running the program in `code` computes a sum or product that a
/// 32-bit unsigned integer cannot hold; `execute_int_code` needs it not to.
pub fn int_code_would_overflow(code: &Vec<u32>) -> (res: bool)
    ensures
        res == int_code_overflows(code@, 0),
{
    let mut mem: Vec<u32> = Vec::new();
    let mut i: usize = 0;
    while i < code.len()
        invariant
            i <= code.len(),
            mem@ == code@.take(i as int),
        decreases code.len() - i,
    {
        mem.push(code[i]);
        i = i + 1;
        proof {
            assert(mem@ =~= code@.take(i as int));
        }
    }
    proof {
        assert(code@.take(code.len() as int) =~= code@);
    }
    let n = mem.len();
    let mut p: usize = 0;
    while p < n
        invariant
            n == mem.len(),
            p <= n,
            int_code_overflows(mem@, p as int) == int_code_overflows(code@, 0),
        decreases n - p,
    {
        if n - p <= 3 {
            return false;
        }
        let op = mem[p];
        let in0 = mem[p + 1] as usize;
        let in1 = mem[p + 2] as usize;
        let out = mem[p + 3] as usize;
        if (op != 1 && op != 2) || in0 >= n || in1 >= n || out >= n {
            return false;
        }
        let a = mem[in0] as u64;
        let b = mem[in1] as u64;
        proof {
            assert(a * b <= u32::MAX as u64 * u32::MAX as u64) by (nonlinear_arith)
                requires a <= u32::MAX, b <= u32::MAX;
        }
        let v: u64 = if op == 1 { a + b } else { a * b };
        if v > u32::MAX as u64 {
            return true;
        }
        mem.set(out, v as u32);
        p = p + 4;
    }
    false
}

fn read_code(code: &Vec<u32>, index: usize) -> (res: Result<u32, Error>)
    ensures
        index < code.len() ==> res == Ok::<u32, Error>(code[index as int]),
        index >= code.len() ==> res == Err::<u32, Error>(Error::IndexError(index)),
{
    if index < code.len() {
        Ok(code[index])
    } else {
        Err(Error::IndexError(index))
    }
}

fn write_code(code: &mut Vec<u32>, index: usize, value: u32) -> (res: Result<(), Error>)
    ensures
        index < old(code).len() ==> res == Ok::<(), Error>(()) && final(code)@ == old(code)@.update(
            index as int,
            value,
        ),
        index >= old(code).len() ==> res == Err::<(), Error>(Error::IndexError(index))
            && final(code)@ == old(code)@,
{
    if index < code.len() {
        code.set(index, value);
        Ok(())
    } else {
        Err(Error::IndexError(index))
    }
}

/// Runs the program in `code` until it halts or fails, and returns the
/// number of instructions that ran. The memory is changed in place.
pub fn execute_int_code(code: &mut Vec<u32>) -> (res: Result<usize, Error>)
    requires
        !int_code_overflows(old(code)@, 0),
    ensures
        ({
            let (mem, outcome) = run_int_code(old(code)@, 0, 0);
            &&& final(code)@ == mem
            &&& match outcome {
                Ok(n) => res matches Ok(m) && m == n,
                Err(e) => res == Err::<usize, Error>(e),
            }
        }),
{
    let mut inst_p: usize = 0;
    let mut step_count: usize = 0;
    let ghost orig = code@;
    loop
        invariant
            run_int_code(code@, inst_p as int, step_count as nat) == run_int_code(orig, 0, 0),
            !int_code_overflows(code@, inst_p as int),
            code.len() == orig.len(),
            orig == old(code)@,
            inst_p <= code.len() + 3,
            step_count * 4 == inst_p,
        decreases code.len() + 3 - inst_p,
    {
        let op_code = match read_code(code, inst_p) {
            Ok(v) => v,
            Err(e) => return Err(e),
        };
        let input0_p = match read_code(code, inst_p + 1) {
            Ok(v) => v,
            Err(e) => return Err(e),
        };
        let input1_p = match read_code(code, inst_p + 2) {
            Ok(v) => v,
            Err(e) => return Err(e),
        };
        let output_p = match read_code(code, inst_p + 3) {
            Ok(v) => v,
            Err(e) => return Err(e),
        };
        inst_p = inst_p + 4;
        let op_res = if op_code == 1 {
            let a = match read_code(code, input0_p as usize) {
                Ok(v) => v,
                Err(e) => return Err(e),
            };
            let b = match read_code(code, input1_p as usize) {
                Ok(v) => v,
                Err(e) => return Err(e),
            };
            if (output_p as usize) >= code.len() {
                return Err(Error::IndexError(output_p as usize));
            }
            a + b
        } else if op_code == 2 {
            let a = match read_code(code, input0_p as usize) {
                Ok(v) => v,
                Err(e) => return Err(e),
            };
            let b = match read_code(code, input1_p as usize) {
                Ok(v) => v,
                Err(e) => return Err(e),
            };
            if (output_p as usize) >= code.len() {
                return Err(Error::IndexError(output_p as usize));
            }
            a * b
        } else if op_code == 99 {
            return Ok(step_count);
        } else {
            return Err(Error::InvalidOpCode(op_code));
        };
        match write_code(code, output_p as usize, op_res) {
            Ok(_) => {},
            Err(e) => return Err(e),
        }
        step_count = step_count + 1;
    }
}

} // verus!
