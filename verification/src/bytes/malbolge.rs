//! A Malbolge interpreter: the program is the cipher's input, its output is
//! what the program prints.
use vstd::prelude::*;
use crate::bytes::CipherError;

verus! {

/// Number of memory cells (3^10).
pub const MEM_SIZE: usize = 59049;

/// Powers of three, 3^0 to 3^10.
pub const POW3: [u16; 11] = [1, 3, 9, 27, 81, 243, 729, 2187, 6561, 19683, 59049];

/// The table by which an executed cell is rewritten (Malbolge's `xlat1`).
pub const XLAT: [u8; 94] = [
    57, 109, 60, 46, 84, 86, 97, 99, 96, 117, 89, 42, 77, 75, 39, 88, 126, 120, 68, 108, 125, 82,
    69, 111, 107, 78, 58, 35, 63, 71, 34, 105, 64, 53, 122, 93, 38, 103, 113, 116, 121, 102, 114,
    36, 40, 119, 101, 52, 123, 87, 80, 41, 72, 45, 90, 110, 44, 91, 37, 92, 51, 100, 76, 43, 81,
    59, 62, 85, 33, 112, 74, 83, 55, 50, 70, 104, 79, 65, 49, 67, 66, 54, 118, 94, 61, 73, 95, 48,
    47, 56, 124, 106, 115, 98,
];

/// Largest number of instructions that one run executes before it is
/// reported as not halting.
pub const STEP_LIMIT: u64 = 0xffff_ffff_ffff_ffff;

/// 3^n.
pub open spec fn pow3(n: nat) -> nat
    decreases n,
{
    if n == 0 { 1 } else { 3 * pow3((n - 1) as nat) }
}

/// The "crazy" operation on one pair of trits.
pub open spec fn trit_op(a: nat, b: nat) -> nat {
    if (a == 0 && (b == 1 || b == 2)) || (a == 1 && b == 1) {
        0
    } else if ((a == 0 || a == 1) && b == 0) || (a == 2 && b == 2) {
        1
    } else {
        2
    }
}

/// The "crazy" operation on the lowest `n` trits of `a` and `b`.
pub open spec fn crazy_trits(a: nat, b: nat, n: nat) -> nat
    decreases n,
{
    if n == 0 {
        0
    } else {
        trit_op(a % 3, b % 3) + 3 * crazy_trits(a / 3, b / 3, (n - 1) as nat)
    }
}

/// Malbolge's ternary "crazy" operation on ten-trit words.
pub open spec fn spec_crazy(a: u16, b: u16) -> u16 {
    crazy_trits(a as nat, b as nat, 10) as u16
}

proof fn lemma_crazy_trits_bound(a: nat, b: nat, n: nat)
    ensures
        crazy_trits(a, b, n) < pow3(n),
    decreases n,
{
    if n > 0 {
        lemma_crazy_trits_bound(a / 3, b / 3, (n - 1) as nat);
        let t = trit_op(a % 3, b % 3);
        let c = crazy_trits(a / 3, b / 3, (n - 1) as nat);
        let p = pow3((n - 1) as nat);
        assert(t + 3 * c < 3 * p) by (nonlinear_arith)
            requires
                t <= 2,
                c < p,
        ;
    }
}

/// The crazy operation: each trit of the result is given by the trits of
/// `a` and `b` at the same place (the lowest ten trits of each).
pub fn crazy(a: u16, b: u16) -> (r: u16)
    ensures
        r as nat == crazy_trits(a as nat, b as nat, 10),
        r < 59049,
{
    let mut x: u16 = a;
    let mut y: u16 = b;
    let mut ret: u16 = 0;
    let mut pow: u16 = 1;
    let mut i: usize = 0;
    proof {
        lemma_crazy_trits_bound(a as nat, b as nat, 10);
        reveal_with_fuel(pow3, 11);
        assert(pow3(10) == 59049);
    }
    while i < 10
        invariant
            i <= 10,
            pow as nat == pow3(i as nat),
            pow3(10) == 59049,
            ret < pow,
            ret + pow * crazy_trits(x as nat, y as nat, (10 - i) as nat) == crazy_trits(
                a as nat,
                b as nat,
                10,
            ),
        decreases 10 - i,
    {
        proof {
            lemma_pow3_le(i as nat, 9);
        }
        let xm = x % 3;
        let ym = y % 3;
        let val: u16 = if (xm == 0 && (ym == 1 || ym == 2)) || (xm == 1 && ym == 1) {
            0
        } else if ((xm == 0 || xm == 1) && ym == 0) || (xm == 2 && ym == 2) {
            1
        } else {
            2
        };
        let ghost c = crazy_trits((x / 3) as nat, (y / 3) as nat, (10 - i - 1) as nat);
        let ghost p = pow as int;
        let ghost r0 = ret as int;
        assert(val as nat == trit_op(x as nat % 3, y as nat % 3));
        assert(crazy_trits(x as nat, y as nat, (10 - i) as nat) == val + 3 * c);
        assert(r0 + p * (val + 3 * c) == (r0 + p * val) + (3 * p) * c) by (nonlinear_arith);
        assert(r0 + p * val < 3 * p) by (nonlinear_arith)
            requires
                0 <= r0 < p,
                val <= 2,
        ;
        ret = ret + pow * val;
        pow = pow * 3;
        x = x / 3;
        y = y / 3;
        i = i + 1;
    }
    assert(crazy_trits(x as nat, y as nat, 0) == 0);
    assert(pow * crazy_trits(x as nat, y as nat, 0) == 0) by (nonlinear_arith)
        requires
            crazy_trits(x as nat, y as nat, 0) == 0,
    ;
    ret
}

proof fn lemma_pow3_le(i: nat, j: nat)
    requires
        i <= j,
    ensures
        pow3(i) <= pow3(j),
    decreases j,
{
    if i < j {
        lemma_pow3_le(i, (j - 1) as nat);
    }
}

/// The whitespace bytes that the loader skips (`u8::is_ascii_whitespace`).
pub open spec fn is_ascii_ws(b: u8) -> bool {
    b == 32 || b == 9 || b == 10 || b == 12 || b == 13
}

/// The bytes of a program text that are not whitespace, in order.
pub open spec fn program_text(data: Seq<u8>) -> Seq<u8>
    decreases data.len(),
{
    if data.len() == 0 {
        seq![]
    } else if is_ascii_ws(data.last()) {
        program_text(data.drop_last())
    } else {
        program_text(data.drop_last()).push(data.last())
    }
}

/// The part of the program that is loaded: at most one byte per memory cell.
pub open spec fn loaded_program(data: Seq<u8>) -> Seq<u8> {
    let p = program_text(data);
    if p.len() > MEM_SIZE {
        p.take(MEM_SIZE as int)
    } else {
        p
    }
}

/// The instructions a program may hold when it is loaded.
pub open spec fn valid_opcode(op: int) -> bool {
    op == 4 || op == 5 || op == 23 || op == 39 || op == 40 || op == 62 || op == 68 || op == 81
}

/// Each byte, with its position added, reads as a valid instruction.
pub open spec fn loads_cleanly(prog: Seq<u8>) -> bool {
    forall|i: int| 0 <= i < prog.len() ==> #[trigger] valid_opcode((i + prog[i]) % 94)
}

/// Fills the memory past the program: each cell is the crazy operation of
/// the two cells before it.
pub open spec fn fill_memory(m: Seq<u16>) -> Seq<u16>
    decreases 59049 - m.len(),
{
    if m.len() >= 59049 || m.len() < 2 {
        m
    } else {
        fill_memory(m.push(spec_crazy(m[m.len() - 2], m[m.len() - 1])))
    }
}

/// The memory of the machine before it runs.
pub open spec fn initial_memory(prog: Seq<u8>) -> Seq<u16> {
    fill_memory(Seq::new(prog.len(), |i: int| prog[i] as u16))
}

/// Malbolge's rotation: one trit moves from the bottom to the top.
pub open spec fn rotate_word(v: u16) -> u16 {
    ((v % 3) * 19683 + v / 3) as u16
}

/// Runs the machine from the given state for at most `fuel` instructions.
/// The result is what the program printed when it halted.
pub open spec fn vm_run(
    mem: Seq<u16>,
    a: u16,
    c: int,
    d: int,
    out: Seq<u8>,
    fuel: nat,
) -> Result<Seq<u8>, CipherError>
    decreases fuel,
{
    let cur = mem[c];
    if !(33 <= cur && cur < 128) {
        Ok(out)
    } else if fuel == 0 {
        Err(CipherError::MalbolgeStepLimit)
    } else {
        let op = (c + cur) % 94;
        if op == 81 {
            Ok(out)
        } else if op == 23 {
            Err(CipherError::MalbolgeInputExhausted)
        } else {
            let c1 = if op == 4 { mem[d] as int } else { c };
            let d1 = if op == 40 { mem[d] as int } else { d };
            let a1 = if op == 39 {
                rotate_word(mem[d])
            } else if op == 62 {
                spec_crazy(mem[d], a)
            } else {
                a
            };
            let mem1 = if op == 39 || op == 62 { mem.update(d, a1) } else { mem };
            let out1 = if op == 5 { out.push((a % 256) as u8) } else { out };
            let mem2 = mem1.update(c1, XLAT@[(mem1[c1] % 94) as int] as u16);
            vm_run(mem2, a1, (c1 + 1) % 59049, (d1 + 1) % 59049, out1, (fuel - 1) as nat)
        }
    }
}

/// What running `data` as a Malbolge program gives.
pub open spec fn malbolge_output(data: Seq<u8>) -> Result<Seq<u8>, CipherError> {
    let prog = loaded_program(data);
    if !loads_cleanly(prog) {
        Err(CipherError::InvalidMalbolgeOpcode)
    } else if prog.len() < 2 {
        Err(CipherError::MalbolgeProgramTooShort)
    } else {
        vm_run(initial_memory(prog), 0, 0, 0, seq![], STEP_LIMIT as nat)
    }
}

/// Removing whitespace from a program text that has none left changes
/// nothing.
proof fn lemma_program_text_idempotent(data: Seq<u8>)
    ensures
        program_text(program_text(data)) == program_text(data),
    decreases data.len(),
{
    if data.len() > 0 {
        lemma_program_text_idempotent(data.drop_last());
        if !is_ascii_ws(data.last()) {
            let p = program_text(data.drop_last()).push(data.last());
            assert(p.drop_last() =~= program_text(data.drop_last()));
        }
    }
}

/// Whitespace plays no part in a Malbolge program: two texts with the same
/// bytes once ASCII whitespace is left out give the same result, and a
/// text gives what it gives with all its whitespace removed.
pub proof fn lemma_whitespace_ignored(data: Seq<u8>, other: Seq<u8>)
    requires
        program_text(data) == program_text(other),
    ensures
        malbolge_output(data) == malbolge_output(other),
        malbolge_output(program_text(data)) == malbolge_output(data),
{
    lemma_program_text_idempotent(data);
}

proof fn lemma_program_text_prefix(data: Seq<u8>, i: int, j: int)
    requires
        0 <= i <= j <= data.len(),
    ensures
        program_text(data.take(i)).len() <= program_text(data.take(j)).len(),
        program_text(data.take(i)) == program_text(data.take(j)).take(
            program_text(data.take(i)).len() as int,
        ),
    decreases j - i,
{
    if i < j {
        lemma_program_text_prefix(data, i, j - 1);
        assert(data.take(j).drop_last() == data.take(j - 1));
    }
}

pub open spec fn mem_wf(mem: Seq<u16>) -> bool {
    mem.len() == 59049 && forall|k: int| 0 <= k < mem.len() ==> #[trigger] mem[k] < 59049
}

fn is_ws_byte(b: u8) -> (r: bool)
    ensures
        r == is_ascii_ws(b),
{
    b == 32 || b == 9 || b == 10 || b == 12 || b == 13
}

/// Loads the program into memory and fills the rest of it.
fn load(data: &[u8]) -> (r: Result<Vec<u16>, CipherError>)
    ensures
        match r {
            Ok(m) => {
                &&& loads_cleanly(loaded_program(data@))
                &&& loaded_program(data@).len() >= 2
                &&& m@ == initial_memory(loaded_program(data@))
                &&& mem_wf(m@)
            },
            Err(e) => malbolge_output(data@) == Err::<Seq<u8>, CipherError>(e),
        },
{
    let mut mem: Vec<u16> = Vec::new();
    let mut i: usize = 0;
    while i < data.len() && mem.len() < MEM_SIZE
        invariant
            i <= data.len(),
            mem.len() <= MEM_SIZE,
            program_text(data@.take(i as int)).len() == mem.len(),
            forall|k: int|
                0 <= k < mem.len() ==> mem@[k] == program_text(data@.take(i as int))[k] as u16,
            loads_cleanly(program_text(data@.take(i as int))),
        decreases data.len() - i,
    {
        let byte = data[i];
        assert(data@.take(i + 1).drop_last() == data@.take(i as int));
        if !is_ws_byte(byte) {
            let opcode = (mem.len() + byte as usize) % 94;
            if !(opcode == 4 || opcode == 5 || opcode == 23 || opcode == 39 || opcode == 40
                || opcode == 62 || opcode == 68 || opcode == 81) {
                proof {
                    let t = program_text(data@.take(i + 1));
                    lemma_program_text_prefix(data@, i + 1, data.len() as int);
                    assert(data@.take(data.len() as int) == data@);
                    let p = loaded_program(data@);
                    let k = mem.len() as int;
                    assert(t[k] == byte);
                    assert(p[k] == t[k]);
                    assert(!valid_opcode((k + p[k]) % 94));
                }
                return Err(CipherError::InvalidMalbolgeOpcode);
            }
            mem.push(byte as u16);
        }
        i = i + 1;
    }
    let ghost t = program_text(data@.take(i as int));
    proof {
        lemma_program_text_prefix(data@, i as int, data.len() as int);
        assert(data@.take(data.len() as int) == data@);
        assert(loaded_program(data@) == t) by {
            if i < data.len() {
                assert(mem.len() == MEM_SIZE);
            }
        }
        assert(mem@ == Seq::new(t.len(), |k: int| t[k] as u16));
    }
    if mem.len() < 2 {
        return Err(CipherError::MalbolgeProgramTooShort);
    }
    proof {
        assert forall|k: int| 0 <= k < mem.len() implies #[trigger] mem@[k] < 59049 by {}
    }
    while mem.len() < MEM_SIZE
        invariant
            2 <= mem.len() <= MEM_SIZE,
            fill_memory(mem@) == initial_memory(t),
            forall|k: int| 0 <= k < mem.len() ==> #[trigger] mem@[k] < 59049,
        decreases MEM_SIZE - mem.len(),
    {
        let n = mem.len();
        let v = crazy(mem[n - 2], mem[n - 1]);
        mem.push(v);
    }
    Ok(mem)
}

/// The Malbolge interpreter. Its input stream is empty: an instruction that
/// reads input ends the run with an error.
pub struct Malbolge;

/// A Malbolge interpreter with no input.
pub fn malbolge() -> (r: Malbolge) {
    Malbolge
}

impl Malbolge {
    /// Runs `data` as a Malbolge program and returns what it printed. A
    /// program with an invalid instruction, one under two cells, or one that
    /// reads input (there is none) gives an error that stands in for a
    /// panic.
    pub fn run(&self, data: &[u8]) -> (r: Result<Vec<u8>, CipherError>)
        ensures
            match r {
                Ok(v) => malbolge_output(data@) == Ok::<Seq<u8>, CipherError>(v@),
                Err(e) => malbolge_output(data@) == Err::<Seq<u8>, CipherError>(e),
            },
    {
        let mut mem = match load(data) {
            Ok(m) => m,
            Err(e) => return Err(e),
        };
        let ghost mem0 = mem@;
        let mut ret: Vec<u8> = Vec::new();
        let mut a: u16 = 0;
        let mut c: usize = 0;
        let mut d: usize = 0;
        let mut fuel: u64 = STEP_LIMIT;
        loop
            invariant
                mem_wf(mem@),
                c < 59049,
                d < 59049,
                mem0 == initial_memory(loaded_program(data@)),
                loads_cleanly(loaded_program(data@)),
                loaded_program(data@).len() >= 2,
                vm_run(mem@, a, c as int, d as int, ret@, fuel as nat) == vm_run(
                    mem0,
                    0,
                    0,
                    0,
                    seq![],
                    STEP_LIMIT as nat,
                ),
            decreases fuel,
        {
            let cur = mem[c];
            if !(33 <= cur && cur < 128) {
                return Ok(ret);
            }
            if fuel == 0 {
                return Err(CipherError::MalbolgeStepLimit);
            }
            let op = (c + cur as usize) % 94;
            if op == 81 {
                return Ok(ret);
            }
            if op == 23 {
                return Err(CipherError::MalbolgeInputExhausted);
            }
            let ghost m = mem@;
            if op == 4 {
                c = mem[d] as usize;
            } else if op == 5 {
                ret.push((a % 256) as u8);
            } else if op == 39 {
                let v = mem[d];
                a = (v % 3) * 19683 + v / 3;
                mem.set(d, a);
            } else if op == 40 {
                d = mem[d] as usize;
            } else if op == 62 {
                a = crazy(mem[d], a);
                mem.set(d, a);
            }
            let x = mem[c] % 94;
            mem.set(c, XLAT[x as usize] as u16);
            c = (c + 1) % MEM_SIZE;
            d = (d + 1) % MEM_SIZE;
            fuel = fuel - 1;
        }
    }
}

} // verus!
