//! Turns symbolic instructions into EVM bytecode.

use vstd::prelude::*;
use std::collections::HashMap;
use crate::isa::Instr;
use crate::opcodes;
use crate::Id;
use crate::U256;

verus! {

broadcast use vstd::std_specs::hash::group_hash_axioms;

/// The largest bytecode the EVM accepts for a contract.
pub const MAX_CODE_SIZE: usize = 24576;

/// How many leading bytes of `s` are zero.
pub open spec fn leading_zeros(s: Seq<u8>) -> nat
    decreases s.len(),
{
    if s.len() > 0 && s[0] == 0 {
        1 + leading_zeros(s.drop_first())
    } else {
        0
    }
}

/// The bytes a push of `v` carries: its big-endian bytes without leading zeros.
pub open spec fn push_payload(v: U256) -> Seq<u8> {
    v.be_bytes@.skip(leading_zeros(v.be_bytes@) as int)
}

/// The size in bytes of one instruction.
pub open spec fn instr_size(i: Instr) -> nat {
    match i {
        Instr::Push(v) => 1 + push_payload(v).len(),
        Instr::PushLabel(_) => 3,
        _ => 1,
    }
}

/// The size of the first `n` instructions.
pub open spec fn size_upto(code: Seq<Instr>, n: int) -> nat
    decreases n,
{
    if n <= 0 {
        0
    } else {
        size_upto(code, n - 1) + instr_size(code[n - 1])
    }
}

/// A run of leading zeros is no longer than the bytes.
pub proof fn lemma_leading_zeros_len(s: Seq<u8>)
    ensures
        leading_zeros(s) <= s.len(),
    decreases s.len(),
{
    if s.len() > 0 && s[0] == 0 {
        lemma_leading_zeros_len(s.drop_first());
    }
}

/// No instruction takes more than 33 bytes.
pub proof fn lemma_instr_size_bound(i: Instr)
    ensures
        instr_size(i) <= 33,
{
    if let Instr::Push(v) = i {
        lemma_leading_zeros_len(v.be_bytes@);
        assert(v.be_bytes@.len() == 32);
    }
}

/// The first `n` instructions take at most 33 bytes each.
pub proof fn lemma_size_upto_bound(code: Seq<Instr>, n: int)
    requires
        0 <= n <= code.len(),
    ensures
        size_upto(code, n) <= 33 * n,
    decreases n,
{
    if n > 0 {
        lemma_size_upto_bound(code, n - 1);
        lemma_instr_size_bound(code[n - 1]);
    }
}

/// Dropping the leading zero bytes keeps a big-endian value, and what is
/// left is empty or starts with a nonzero byte.
pub proof fn lemma_strip_zeros(s: Seq<u8>)
    ensures
        leading_zeros(s) <= s.len(),
        crate::word::be_value(s.skip(leading_zeros(s) as int)) == crate::word::be_value(s),
        s.skip(leading_zeros(s) as int).len() > 0 ==> s.skip(leading_zeros(s) as int)[0] != 0,
    decreases s.len(),
{
    if s.len() > 0 && s[0] == 0 {
        let t = s.drop_first();
        lemma_strip_zeros(t);
        assert(s.skip(leading_zeros(s) as int) =~= t.skip(leading_zeros(t) as int));
        assert(s =~= seq![0u8] + t);
        crate::word::lemma_be_value_prepend(0u8, t);
    } else {
        assert(s.skip(0) =~= s);
    }
}

/// A push is encoded as `PUSHn` followed by `n` bytes that, read
/// big-endian, are the pushed word, most significant byte first and with
/// no leading zero byte: executing it leaves exactly that word on the stack.
pub proof fn lemma_push_encodes_word(code: Seq<Instr>, v: U256)
    ensures
        ({
            let e = encode(code, Instr::Push(v));
            let p = e.drop_first();
            &&& e.len() >= 1
            &&& p.len() <= 32
            &&& e[0] == (opcodes::PUSH0 + p.len()) as u8
            &&& crate::word::be_value(p) == v.value()
            &&& p.len() > 0 ==> p[0] != 0
        }),
{
    let e = encode(code, Instr::Push(v));
    lemma_strip_zeros(v.be_bytes@);
    assert(v.be_bytes@.len() == 32);
    assert(e.drop_first() =~= push_payload(v));
}

/// Whether instruction `k` marks label `id`.
pub open spec fn marks(code: Seq<Instr>, k: int, id: Id) -> bool {
    0 <= k < code.len() && code[k] == Instr::JumpDest(id)
}

/// The bytecode offset of label `id`.
pub open spec fn label_offset(code: Seq<Instr>, id: Id) -> nat {
    size_upto(code, choose|k: int| marks(code, k, id))
}

/// What `assemble` needs of its input: every label is marked once, every
/// label pushed is marked, swaps reach depth 1 to 16, dups depth 0 to 15,
/// and the result fits in a contract.
pub open spec fn assemblable(code: Seq<Instr>) -> bool {
    &&& forall|j: int, k: int, id: Id| marks(code, j, id) && marks(code, k, id) ==> j == k
    &&& forall|k: int, id: Id| 0 <= k < code.len() && code[k] == Instr::PushLabel(id)
        ==> exists|j: int| marks(code, j, id)
    &&& forall|k: int, d: usize| 0 <= k < code.len() && code[k] == Instr::Swap(d) ==> 1 <= d <= 16
    &&& forall|k: int, d: usize| 0 <= k < code.len() && code[k] == Instr::Dup(d) ==> d < 16
    &&& size_upto(code, code.len() as int) <= MAX_CODE_SIZE
}

/// The bytes of instruction `i` of `code`.
pub open spec fn encode(code: Seq<Instr>, i: Instr) -> Seq<u8> {
    match i {
        Instr::Pop => seq![opcodes::POP],
        Instr::Push(v) => seq![(opcodes::PUSH0 + push_payload(v).len()) as u8] + push_payload(v),
        Instr::Swap(d) => seq![(opcodes::SWAP1 + d - 1) as u8],
        Instr::Dup(d) => seq![(opcodes::DUP1 + d) as u8],
        Instr::Op(op) => seq![op],
        Instr::JumpDest(_) => seq![opcodes::JUMPDEST],
        Instr::PushLabel(id) => {
            let off = label_offset(code, id);
            seq![opcodes::PUSH2, (off / 256) as u8, (off % 256) as u8]
        },
        Instr::JumpIf => seq![opcodes::JUMPI],
        Instr::Jump => seq![opcodes::JUMP],
        Instr::Stop => seq![opcodes::STOP],
    }
}

/// The bytecode of the first `n` instructions.
pub open spec fn assembled_upto(code: Seq<Instr>, n: int) -> Seq<u8>
    decreases n,
{
    if n <= 0 {
        Seq::empty()
    } else {
        assembled_upto(code, n - 1) + encode(code, code[n - 1])
    }
}

/// The bytecode of a whole instruction list.
pub open spec fn assembled(code: Seq<Instr>) -> Seq<u8> {
    assembled_upto(code, code.len() as int)
}

proof fn lemma_size_mono(code: Seq<Instr>, a: int, b: int)
    requires
        a <= b,
    ensures
        size_upto(code, a) <= size_upto(code, b),
    decreases b - a,
{
    if a < b {
        lemma_size_mono(code, a, b - 1);
    }
}

proof fn lemma_leading_zeros(s: Seq<u8>)
    ensures
        leading_zeros(s) <= s.len(),
        forall|j: int| 0 <= j < leading_zeros(s) ==> s[j] == 0,
        leading_zeros(s) < s.len() ==> s[leading_zeros(s) as int] != 0,
    decreases s.len(),
{
    if s.len() > 0 && s[0] == 0 {
        lemma_leading_zeros(s.drop_first());
        assert forall|j: int| 0 <= j < leading_zeros(s) implies s[j] == 0 by {
            if j > 0 {
                assert(s[j] == s.drop_first()[j - 1]);
            }
        }
    }
}

proof fn lemma_encode_len(code: Seq<Instr>, i: Instr)
    ensures
        encode(code, i).len() == instr_size(i),
{
}

proof fn lemma_assembled_len(code: Seq<Instr>, n: int)
    requires
        0 <= n <= code.len(),
    ensures
        assembled_upto(code, n).len() == size_upto(code, n),
    decreases n,
{
    if n > 0 {
        lemma_assembled_len(code, n - 1);
        lemma_encode_len(code, code[n - 1]);
    }
}

proof fn lemma_assembled_prefix(code: Seq<Instr>, a: int, b: int)
    requires
        0 <= a <= b <= code.len(),
    ensures
        assembled_upto(code, b).subrange(0, assembled_upto(code, a).len() as int) == assembled_upto(code, a),
    decreases b - a,
{
    if a < b {
        lemma_assembled_prefix(code, a, b - 1);
        lemma_assembled_len(code, a);
        lemma_assembled_len(code, b - 1);
        lemma_size_mono(code, a, b - 1);
        assert(assembled_upto(code, b).subrange(0, assembled_upto(code, a).len() as int)
            =~= assembled_upto(code, b - 1).subrange(0, assembled_upto(code, a).len() as int));
    } else {
        assert(assembled_upto(code, b).subrange(0, assembled_upto(code, a).len() as int) =~= assembled_upto(code, a));
    }
}

/// Every pushed label points at a `JUMPDEST` byte of the result, so each
/// jump lands on a valid destination.
pub proof fn lemma_labels_land_on_jumpdest(code: Seq<Instr>, k: int, id: Id)
    requires
        assemblable(code),
        0 <= k < code.len(),
        code[k] == Instr::PushLabel(id),
    ensures
        label_offset(code, id) < assembled(code).len(),
        assembled(code)[label_offset(code, id) as int] == opcodes::JUMPDEST,
{
    assert(exists|j: int| marks(code, j, id));
    let j = choose|j: int| marks(code, j, id);
    assert(marks(code, j, id));
    lemma_assembled_prefix(code, j + 1, code.len() as int);
    lemma_assembled_len(code, j);
    lemma_assembled_len(code, j + 1);
    lemma_assembled_len(code, code.len() as int);
    let whole = assembled(code);
    let pre = assembled_upto(code, j + 1);
    let x = size_upto(code, j) as int;
    lemma_size_mono(code, j + 1, code.len() as int);
    assert(x < whole.len());
    assert(pre == assembled_upto(code, j) + encode(code, code[j]));
    assert(pre[x] == opcodes::JUMPDEST);
    assert(whole.subrange(0, pre.len() as int) == pre);
    assert(whole.subrange(0, pre.len() as int)[x] == whole[x]);
    assert(label_offset(code, id) == x);
}

fn instruction_push(value: U256, out: &mut Vec<u8>)
    ensures
        final(out)@ == old(out)@ + seq![(opcodes::PUSH0 + push_payload(value).len()) as u8] + push_payload(value),
{
    let bytes = value.be_bytes;
    let mut start: usize = 0;
    proof {
        lemma_leading_zeros(bytes@);
    }
    while start < 32 && bytes[start] == 0
        invariant
            start <= 32,
            bytes@.len() == 32,
            start <= leading_zeros(bytes@),
            forall|j: int| 0 <= j < leading_zeros(bytes@) ==> bytes@[j] == 0,
            leading_zeros(bytes@) <= 32,
            leading_zeros(bytes@) < 32 ==> bytes@[leading_zeros(bytes@) as int] != 0,
        decreases 32 - start,
    {
        start = start + 1;
    }
    assert(start == leading_zeros(bytes@));
    out.push(opcodes::PUSH0 + (32 - start) as u8);
    let ghost base = out@;
    let mut i = start;
    while i < 32
        invariant
            start <= i <= 32,
            bytes@.len() == 32,
            out@ == base + bytes@.subrange(start as int, i as int),
        decreases 32 - i,
    {
        out.push(bytes[i]);
        proof {
            assert(bytes@.subrange(start as int, i + 1) =~= bytes@.subrange(start as int, i as int).push(bytes@[i as int]));
        }
        i = i + 1;
    }
    assert(bytes@.subrange(start as int, 32) =~= push_payload(value));
}

/// The number of payload bytes a push of `value` carries.
fn payload_len(value: U256) -> (n: usize)
    ensures
        n == push_payload(value).len(),
        n <= 32,
{
    let mut lz: usize = 0;
    proof {
        lemma_leading_zeros(value.be_bytes@);
    }
    while lz < 32 && value.be_bytes[lz] == 0
        invariant
            lz <= 32,
            value.be_bytes@.len() == 32,
            lz <= leading_zeros(value.be_bytes@),
            forall|j: int| 0 <= j < leading_zeros(value.be_bytes@) ==> value.be_bytes@[j] == 0,
            leading_zeros(value.be_bytes@) <= 32,
            leading_zeros(value.be_bytes@) < 32 ==> value.be_bytes@[leading_zeros(value.be_bytes@) as int] != 0,
        decreases 32 - lz,
    {
        lz = lz + 1;
    }
    32 - lz
}

/// Whether `assemble` accepts `code`: labels are unique and every pushed
/// label is marked, swap and dup depths are in range, and the bytecode
/// fits in a contract.
pub fn check_assemblable(code: &[Instr]) -> (r: bool)
    ensures
        r == assemblable(code@),
{
    let ghost c = code@;
    let mut labels: HashMap<usize, usize> = HashMap::new();
    let mut pc: usize = 0;
    let mut i: usize = 0;
    while i < code.len()
        invariant
            c == code@,
            i <= c.len(),
            pc == size_upto(c, i as int),
            pc <= MAX_CODE_SIZE,
            forall|j: int, k: int, id: Id| j < i && k < i && marks(c, j, id) && marks(c, k, id) ==> j == k,
            forall|k: int, d: usize| 0 <= k < i && c[k] == Instr::Swap(d) ==> 1 <= d <= 16,
            forall|k: int, d: usize| 0 <= k < i && c[k] == Instr::Dup(d) ==> d < 16,
            forall|k: int, id: Id| 0 <= k < i && marks(c, k, id)
                ==> labels@.contains_key(id.0) && labels@[id.0] == k,
            forall|key: usize| #[trigger] labels@.contains_key(key)
                ==> labels@[key] < i && marks(c, labels@[key] as int, Id(key)),
        decreases c.len() - i,
    {
        match code[i] {
            Instr::JumpDest(id) => {
                if labels.contains_key(&id.0) {
                    proof {
                        let j = labels@[id.0] as int;
                        assert(marks(c, j, Id(id.0)));
                        assert(marks(c, i as int, id));
                    }
                    return false;
                }
                labels.insert(id.0, i);
                proof {
                    assert(Id(id.0) == id);
                    assert(marks(c, i as int, Id(id.0)));
                }
            },
            Instr::Swap(d) => {
                if d < 1 || d > 16 {
                    assert(c[i as int] == Instr::Swap(d));
                    return false;
                }
            },
            Instr::Dup(d) => {
                if d >= 16 {
                    assert(c[i as int] == Instr::Dup(d));
                    return false;
                }
            },
            _ => {},
        }
        let size: usize = match code[i] {
            Instr::Push(value) => 1 + payload_len(value),
            Instr::PushLabel(_) => 3,
            _ => 1,
        };
        if size > MAX_CODE_SIZE - pc {
            proof {
                lemma_size_mono(c, i + 1, c.len() as int);
            }
            return false;
        }
        pc = pc + size;
        proof {
            assert forall|k: int, id: Id| 0 <= k < i + 1 && marks(c, k, id)
                implies labels@.contains_key(id.0) && labels@[id.0] == k by {
                if k < i && c[i as int] == Instr::JumpDest(id) {
                    assert(marks(c, i as int, id));
                }
            }
        }
        i = i + 1;
    }
    let mut i: usize = 0;
    while i < code.len()
        invariant
            c == code@,
            i <= c.len(),
            forall|k: int, id: Id| 0 <= k < c.len() && marks(c, k, id)
                ==> labels@.contains_key(id.0) && labels@[id.0] == k,
            forall|key: usize| #[trigger] labels@.contains_key(key)
                ==> labels@[key] < c.len() && marks(c, labels@[key] as int, Id(key)),
            forall|k: int, id: Id| 0 <= k < i && c[k] == Instr::PushLabel(id) ==> exists|j: int| marks(c, j, id),
        decreases c.len() - i,
    {
        if let Instr::PushLabel(id) = code[i] {
            if !labels.contains_key(&id.0) {
                proof {
                    assert(c[i as int] == Instr::PushLabel(id));
                    assert(!exists|j: int| marks(c, j, id));
                }
                return false;
            }
            proof {
                assert(marks(c, labels@[id.0] as int, Id(id.0)));
            }
        }
        i = i + 1;
    }
    true
}

/// Encodes instructions as bytecode, resolving labels to offsets.
pub fn assemble(code: &[Instr]) -> (bytecode: Vec<u8>)
    requires
        assemblable(code@),
    ensures
        bytecode@ == assembled(code@),
{
    let ghost c = code@;
    let mut label_offsets: HashMap<usize, usize> = HashMap::new();
    let mut pc: usize = 0;
    let mut i: usize = 0;
    proof {
        lemma_size_mono(c, 0, c.len() as int);
    }
    while i < code.len()
        invariant
            c == code@,
            assemblable(c),
            i <= c.len(),
            pc == size_upto(c, i as int),
            forall|k: int, id: Id| 0 <= k < i && marks(c, k, id)
                ==> label_offsets@.contains_key(id.0) && label_offsets@[id.0] == size_upto(c, k),
            forall|key: usize| label_offsets@.contains_key(key)
                ==> exists|k: int| 0 <= k < i && #[trigger] marks(c, k, Id(key)),
        decreases c.len() - i,
    {
        proof {
            lemma_size_mono(c, i + 1, c.len() as int);
            if let Instr::Push(v) = c[i as int] {
                lemma_leading_zeros(v.be_bytes@);
            }
        }
        match code[i] {
            Instr::JumpDest(id) => {
                proof {
                    assert(marks(c, i as int, id));
                    assert(!label_offsets@.contains_key(id.0)) by {
                        if label_offsets@.contains_key(id.0) {
                            let k = choose|k: int| 0 <= k < i && #[trigger] marks(c, k, Id(id.0));
                            assert(marks(c, k, id));
                        }
                    }
                }
                label_offsets.insert(id.0, pc);
                pc = pc + 1;
            },
            Instr::Push(value) => {
                let mut lz: usize = 0;
                proof {
                    lemma_leading_zeros(value.be_bytes@);
                }
                while lz < 32 && value.be_bytes[lz] == 0
                    invariant
                        lz <= 32,
                        value.be_bytes@.len() == 32,
                        lz <= leading_zeros(value.be_bytes@),
                        forall|j: int| 0 <= j < leading_zeros(value.be_bytes@) ==> value.be_bytes@[j] == 0,
                        leading_zeros(value.be_bytes@) <= 32,
                        leading_zeros(value.be_bytes@) < 32 ==> value.be_bytes@[leading_zeros(value.be_bytes@) as int] != 0,
                    decreases 32 - lz,
                {
                    lz = lz + 1;
                }
                pc = pc + 1 + (32 - lz);
            },
            Instr::PushLabel(_) => {
                pc = pc + 3;
            },
            _ => {
                pc = pc + 1;
            },
        }
        proof {
            assert forall|k: int, id: Id| 0 <= k < i + 1 && marks(c, k, id)
                implies label_offsets@.contains_key(id.0) && label_offsets@[id.0] == size_upto(c, k) by {
                if k < i {
                    if c[i as int] == Instr::JumpDest(id) {
                        assert(marks(c, i as int, id));
                    }
                }
            }
            assert forall|key: usize| label_offsets@.contains_key(key)
                implies exists|k: int| 0 <= k < i + 1 && #[trigger] marks(c, k, Id(key)) by {
                if c[i as int] == Instr::JumpDest(Id(key)) {
                    assert(marks(c, i as int, Id(key)));
                }
            }
        }
        i = i + 1;
    }

    let mut bytecode: Vec<u8> = Vec::with_capacity(code.len());
    let mut i: usize = 0;
    while i < code.len()
        invariant
            c == code@,
            assemblable(c),
            i <= c.len(),
            bytecode@ == assembled_upto(c, i as int),
            forall|k: int, id: Id| 0 <= k < c.len() && marks(c, k, id)
                ==> label_offsets@.contains_key(id.0) && label_offsets@[id.0] == size_upto(c, k),
        decreases c.len() - i,
    {
        let ghost before = bytecode@;
        match code[i] {
            Instr::Pop => bytecode.push(opcodes::POP),
            Instr::Push(value) => instruction_push(value, &mut bytecode),
            Instr::Swap(depth) => {
                assert(c[i as int] == Instr::Swap(depth));
                bytecode.push(opcodes::SWAP1 + (depth - 1) as u8);
            },
            Instr::Dup(depth) => {
                assert(c[i as int] == Instr::Dup(depth));
                bytecode.push(opcodes::DUP1 + depth as u8);
            },
            Instr::Op(op) => bytecode.push(op),
            Instr::JumpDest(_) => bytecode.push(opcodes::JUMPDEST),
            Instr::PushLabel(id) => {
                let ghost j = choose|j: int| marks(c, j, id);
                proof {
                    assert(c[i as int] == Instr::PushLabel(id));
                    assert(marks(c, j, id));
                    lemma_size_mono(c, j, c.len() as int);
                }
                let offset = *label_offsets.get(&id.0).unwrap();
                assert(offset == label_offset(c, id));
                bytecode.push(opcodes::PUSH2);
                bytecode.push((offset / 256) as u8);
                bytecode.push((offset % 256) as u8);
            },
            Instr::JumpIf => bytecode.push(opcodes::JUMPI),
            Instr::Jump => bytecode.push(opcodes::JUMP),
            Instr::Stop => bytecode.push(opcodes::STOP),
        }
        proof {
            assert(bytecode@ =~= before + encode(c, c[i as int]));
        }
        i = i + 1;
    }
    bytecode
}

} // verus!
