//! The code generator's model of field types, and the update of a source
//! file with the generated code that follows a marker line.

use vstd::prelude::*;

use crate::value::Value;

verus! {

/// A primitive field type.
#[derive(Clone, Copy, Debug, PartialEq, Eq)]
pub enum PrimitiveType {
    F32,
    F64,
    I8,
    I16,
    I32,
    I64,
    U8,
    U16,
    U32,
    U64,
    Bool,
}

/// The number of bytes of a field of type `ty`.
pub open spec fn primitive_stride(ty: PrimitiveType) -> nat {
    match ty {
        PrimitiveType::F32 => 4,
        PrimitiveType::F64 => 8,
        PrimitiveType::I8 => 1,
        PrimitiveType::I16 => 2,
        PrimitiveType::I32 => 4,
        PrimitiveType::I64 => 8,
        PrimitiveType::U8 => 1,
        PrimitiveType::U16 => 2,
        PrimitiveType::U32 => 4,
        PrimitiveType::U64 => 8,
        PrimitiveType::Bool => 1,
    }
}

impl PrimitiveType {
    /// The number of bytes of a field of this type.
    pub fn stride(self) -> (n: usize)
        ensures
            n == primitive_stride(self),
    {
        match self {
            Self::F32 => 4,
            Self::F64 => 8,
            Self::I8 => 1,
            Self::I16 => 2,
            Self::I32 => 4,
            Self::I64 => 8,
            Self::U8 => 1,
            Self::U16 => 2,
            Self::U32 => 4,
            Self::U64 => 8,
            Self::Bool => 1,
        }
    }
}

/// A field type: a primitive, or a structure.
pub enum ValueType {
    Primitive(PrimitiveType),
    Struct(),
}

impl ValueType {
    /// The number of bytes of a field of this type: that of the primitive, and
    /// none for a structure.
    pub fn stride(self) -> (n: usize)
        ensures
            n == match self {
                ValueType::Primitive(ty) => primitive_stride(ty),
                ValueType::Struct() => 0,
            },
    {
        match self {
            Self::Primitive(ty) => ty.stride(),
            Self::Struct() => 0,
        }
    }
}

/// The generated code.
pub fn compile() -> (s: String)
    ensures
        s@ == "\n// START OF GENERATED CODE\n"@,
{
    "\n// START OF GENERATED CODE\n".to_owned()
}

/// The newline byte.
pub const NEWLINE: u8 = 10;

/// The index just past the `k`-th line of `s`: past its `k`-th newline, or the
/// end of `s` when it has fewer (a last line need not end with a newline);
/// the end of `s` when `k` is zero.
pub open spec fn line_end(s: Seq<u8>, k: nat) -> nat
    decreases s.len(),
{
    if k == 0 || s.len() == 0 {
        s.len()
    } else if s[0] == NEWLINE {
        if k == 1 {
            1
        } else {
            1 + line_end(s.drop_first(), (k - 1) as nat)
        }
    } else {
        1 + line_end(s.drop_first(), k)
    }
}

/// The number of newlines in `s`.
pub open spec fn newlines(s: Seq<u8>) -> nat
    decreases s.len(),
{
    if s.len() == 0 {
        0
    } else {
        (if s[0] == NEWLINE { 1nat } else { 0nat }) + newlines(s.drop_first())
    }
}

/// The new contents of a file whose text after its first `line` lines should
/// be `generated`: `None` when it already is, and otherwise the first `line`
/// lines followed by `generated`.
pub open spec fn regenerated(file: Seq<u8>, line: nat, generated: Seq<u8>) -> Option<Seq<u8>> {
    let e = line_end(file, line) as int;
    if file.skip(e) == generated {
        None
    } else {
        Some(file.take(e) + generated)
    }
}

/// The end of a line lies within the text.
pub proof fn lemma_line_end_bound(s: Seq<u8>, k: nat)
    ensures
        line_end(s, k) <= s.len(),
    decreases s.len(),
{
    if k != 0 && s.len() != 0 {
        if s[0] == NEWLINE {
            if k != 1 {
                lemma_line_end_bound(s.drop_first(), (k - 1) as nat);
            }
        } else {
            lemma_line_end_bound(s.drop_first(), k);
        }
    }
}

/// Cutting the text right after its `k`-th newline, and putting anything
/// after it, keeps that newline where it was.
pub proof fn lemma_line_end_prefix(s: Seq<u8>, k: nat, t: Seq<u8>)
    requires
        1 <= k <= newlines(s),
    ensures
        line_end(s.take(line_end(s, k) as int) + t, k) == line_end(s, k),
    decreases s.len(),
{
    lemma_line_end_bound(s, k);
    let e = line_end(s, k) as int;
    let u = s.take(e) + t;
    assert(s.len() > 0);
    assert(u[0] == s[0]);
    if s[0] == NEWLINE {
        if k != 1 {
            lemma_line_end_prefix(s.drop_first(), (k - 1) as nat, t);
            assert(u.drop_first() =~= s.drop_first().take(e - 1) + t);
        }
    } else {
        lemma_line_end_prefix(s.drop_first(), k, t);
        assert(u.drop_first() =~= s.drop_first().take(e - 1) + t);
    }
}

/// Regenerating is idempotent when the file has the marker line: a second
/// update right after the first one changes nothing.
pub proof fn lemma_regenerated_idempotent(file: Seq<u8>, line: nat, generated: Seq<u8>)
    requires
        1 <= line <= newlines(file),
    ensures
        regenerated(file, line, generated) matches Some(f) ==> regenerated(f, line, generated)
            is None,
{
    if let Some(f) = regenerated(file, line, generated) {
        lemma_line_end_bound(file, line);
        lemma_line_end_prefix(file, line, generated);
        let e = line_end(file, line) as int;
        assert(f.skip(e) =~= generated);
    }
}

/// The index just past the first `line` lines of `file`.
pub fn find_line_end(file: &[u8], line: u32) -> (r: usize)
    ensures
        r == line_end(file@, line as nat),
{
    let n = file.len();
    if line == 0 {
        return n;
    }
    let mut i: usize = 0;
    let mut seen: u32 = 0;
    assert(file@.skip(0) =~= file@);
    while i < n
        invariant
            n == file@.len(),
            i <= n,
            seen < line,
            line_end(file@, line as nat) == i + line_end(file@.skip(i as int), (line - seen) as nat),
        decreases n - i,
    {
        let ghost rest = file@.skip(i as int);
        assert(rest.drop_first() =~= file@.skip(i + 1));
        if file[i] == NEWLINE {
            if seen + 1 == line {
                return i + 1;
            }
            seen = seen + 1;
        }
        i = i + 1;
    }
    assert(file@.skip(n as int).len() == 0);
    n
}

/// Whether two byte strings are equal.
fn bytes_equal(a: &[u8], b: &[u8]) -> (r: bool)
    ensures
        r == (a@ == b@),
{
    if a.len() != b.len() {
        return false;
    }
    let mut i: usize = 0;
    while i < a.len()
        invariant
            a@.len() == b@.len(),
            i <= a@.len(),
            forall|k: int| 0 <= k < i ==> a@[k] == b@[k],
        decreases a@.len() - i,
    {
        if a[i] != b[i] {
            return false;
        }
        i = i + 1;
    }
    assert(a@ =~= b@);
    true
}

/// The new contents of `file` when the text after its first `line` lines
/// should be `generated`; `None` when it already is.
pub fn regenerate(file: &[u8], line: u32, generated: &[u8]) -> (r: Option<Vec<u8>>)
    ensures
        r matches Some(v) ==> regenerated(file@, line as nat, generated@) == Some(v@),
        r is None <==> regenerated(file@, line as nat, generated@) is None,
        r is None <==> file@.skip(line_end(file@, line as nat) as int) == generated@,
        r matches Some(v) ==> v@ == file@.take(line_end(file@, line as nat) as int) + generated@,
{
    let eol = find_line_end(file, line);
    proof {
        lemma_line_end_bound(file@, line as nat);
    }
    let (a, b) = file.split_at(eol);
    if bytes_equal(b, generated) {
        None
    } else {
        let mut out = vstd::slice::slice_to_vec(a);
        out.extend_from_slice(generated);
        Some(out)
    }
}

/// The generator gives each unsigned and boolean field the slot size that
/// the runtime reads and writes it with.
pub proof fn lemma_primitive_strides_match_values()
    ensures
        primitive_stride(PrimitiveType::U8) == <u8 as Value>::spec_stride(),
        primitive_stride(PrimitiveType::U16) == <u16 as Value>::spec_stride(),
        primitive_stride(PrimitiveType::U32) == <u32 as Value>::spec_stride(),
        primitive_stride(PrimitiveType::U64) == <u64 as Value>::spec_stride(),
        primitive_stride(PrimitiveType::Bool) == <bool as Value>::spec_stride(),
{
}

/// The newlines of two texts one after the other are those of each.
pub proof fn lemma_newlines_concat(s: Seq<u8>, t: Seq<u8>)
    ensures
        newlines(s + t) == newlines(s) + newlines(t),
    decreases s.len(),
{
    if s.len() == 0 {
        assert(s + t =~= t);
    } else {
        assert((s + t)[0] == s[0]);
        assert((s + t).drop_first() =~= s.drop_first() + t);
        lemma_newlines_concat(s.drop_first(), t);
    }
}

/// A single byte is one newline if it is the newline byte, and none otherwise.
pub proof fn lemma_newlines_byte(b: u8)
    ensures
        newlines(seq![b]) == if b == NEWLINE { 1nat } else { 0nat },
{
    assert(seq![b].drop_first() =~= Seq::<u8>::empty());
    assert(newlines(Seq::<u8>::empty()) == 0);
    assert(seq![b][0] == b);
}

/// When the text has at least `k >= 1` newlines, the `k`-th line ends right
/// after a newline, and the text up to there holds exactly `k` newlines.
pub proof fn lemma_line_end_newline(s: Seq<u8>, k: nat)
    requires
        1 <= k <= newlines(s),
    ensures
        1 <= line_end(s, k) <= s.len(),
        s[line_end(s, k) - 1] == NEWLINE,
        newlines(s.take(line_end(s, k) as int)) == k,
    decreases s.len(),
{
    let e = line_end(s, k) as int;
    let r = s.drop_first();
    if s[0] == NEWLINE {
        if k == 1 {
            assert(s.take(1) =~= seq![s[0]]);
            lemma_newlines_byte(s[0]);
        } else {
            lemma_line_end_newline(r, (k - 1) as nat);
            assert(s.take(e).drop_first() =~= r.take(e - 1));
            assert(s.take(e)[0] == s[0]);
        }
    } else {
        lemma_line_end_newline(r, k);
        assert(s.take(e).drop_first() =~= r.take(e - 1));
        assert(s.take(e)[0] == s[0]);
    }
}

/// When the text has fewer than `k` newlines, or `k` is zero, the first `k`
/// lines are the whole text.
pub proof fn lemma_line_end_past(s: Seq<u8>, k: nat)
    requires
        k == 0 || k > newlines(s),
    ensures
        line_end(s, k) == s.len(),
    decreases s.len(),
{
    if k != 0 && s.len() != 0 {
        if s[0] == NEWLINE {
            lemma_line_end_past(s.drop_first(), (k - 1) as nat);
        } else {
            lemma_line_end_past(s.drop_first(), k);
        }
    }
}

/// An update leaves the file alone exactly when the text after its first
/// `line` lines is the generated code, and otherwise gives those lines followed
/// by the generated code.
pub proof fn lemma_regenerated_cases(file: Seq<u8>, line: nat, generated: Seq<u8>)
    ensures
        (regenerated(file, line, generated) is None) <==> file.skip(line_end(file, line) as int)
            == generated,
        regenerated(file, line, generated) matches Some(v) ==> v == file.take(
            line_end(file, line) as int,
        ) + generated,
{
}

/// The bytes of each primitive field: 1 for `I8`, `U8` and `Bool`, 2 for
/// `I16` and `U16`, 4 for `I32`, `U32` and `F32`, 8 for `I64`, `U64` and `F64`.
pub proof fn lemma_primitive_stride_table()
    ensures
        primitive_stride(PrimitiveType::I8) == 1,
        primitive_stride(PrimitiveType::U8) == 1,
        primitive_stride(PrimitiveType::Bool) == 1,
        primitive_stride(PrimitiveType::I16) == 2,
        primitive_stride(PrimitiveType::U16) == 2,
        primitive_stride(PrimitiveType::I32) == 4,
        primitive_stride(PrimitiveType::U32) == 4,
        primitive_stride(PrimitiveType::F32) == 4,
        primitive_stride(PrimitiveType::I64) == 8,
        primitive_stride(PrimitiveType::U64) == 8,
        primitive_stride(PrimitiveType::F64) == 8,
{
}

} // verus!
