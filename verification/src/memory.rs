use vstd::prelude::*;

verus! {

/// Types of memory.  Members use the original C names.
#[allow(non_camel_case_types)]
#[derive(Clone, Copy, Debug, PartialEq, Eq)]
pub enum MemoryType {
    M_AST_POOL,
    M_AST,
    M_PROGRAM,
    M_PVAL,
    M_NETWORK,
    M_STRING,
    M_VERBDEF,
    M_LIST,
    M_PREP,
    M_PROPDEF,
    M_OBJECT_TABLE,
    M_OBJECT,
    M_FLOAT,
    M_STREAM,
    M_NAMES,
    M_ENV,
    M_TASK,
    M_PATTERN,
    M_BYTECODES,
    M_FORK_VECTORS,
    M_LIT_LIST,
    M_PROTOTYPE,
    M_CODE_GEN,
    M_DISASSEMBLE,
    M_DECOMPILE,
    M_RT_STACK,
    M_RT_ENV,
    M_BI_FUNC_DATA,
    M_VM,
    M_REF_ENTRY,
    M_REF_TABLE,
    M_VC_ENTRY,
    M_VC_TABLE,
    M_STRING_PTRS,
    M_INTERN_POINTER,
    M_INTERN_ENTRY,
    M_INTERN_HUNK,
    Sizeof_Memory_Type,
}

/// Bytes reserved in front of an allocation of the given type for its
/// reference count: strings get the size of an `int`, lists the size of a
/// pointer and floats the size of a `double`; nothing else is counted.
pub open spec fn spec_refcount_offset(memory_type: MemoryType) -> nat {
    match memory_type {
        MemoryType::M_STRING => 4,
        MemoryType::M_LIST => 8,
        MemoryType::M_FLOAT => 8,
        _ => 0,
    }
}

/// Calculate space for the ref counting cell.
///
/// Only floats, strings, and lists get space for a refcount.  Element
/// alignment is preserved, even though the refcount is a `u32`.
pub fn refcount_offset(memory_type: MemoryType) -> (offset: usize)
    ensures
        offset == spec_refcount_offset(memory_type),
{
    match memory_type {
        MemoryType::M_STRING => 4,
        MemoryType::M_LIST => 8,
        MemoryType::M_FLOAT => 8,
        _ => 0,
    }
}

/// Only strings, lists and floats carry a reference count; a string's cell
/// is the size of an `int` (4 bytes), a list's and a float's the size of a
/// pointer or a `double` (8 bytes), so what follows stays aligned.
pub proof fn law_refcount_cells(memory_type: MemoryType)
    ensures
        spec_refcount_offset(memory_type) != 0 <==> (memory_type == MemoryType::M_STRING
            || memory_type == MemoryType::M_LIST || memory_type == MemoryType::M_FLOAT),
        memory_type == MemoryType::M_STRING ==> spec_refcount_offset(memory_type) == 4,
        memory_type == MemoryType::M_LIST ==> spec_refcount_offset(memory_type) == 8,
        memory_type == MemoryType::M_FLOAT ==> spec_refcount_offset(memory_type) == 8,
{
}

/// The number of bytes that `almost_mymalloc` asks the allocator for: the
/// requested size (at least one byte) plus the refcount cell.  `None` when
/// that sum does not fit in a `usize`.
pub fn allocation_size(size: usize, memory_type: MemoryType) -> (total: Option<usize>)
    ensures
        ({
            let want = (if size == 0 { 1 } else { size as int }) + spec_refcount_offset(memory_type);
            match total {
                Some(t) => want <= usize::MAX && t == want,
                None => want > usize::MAX,
            }
        }),
{
    let offset = refcount_offset(memory_type);
    let size = if size == 0 { 1 } else { size };
    size.checked_add(offset)
}

/// The number of bytes that `almost_myrealloc` asks the allocator for: the
/// requested size plus the refcount cell.  `None` when that sum does not fit
/// in a `usize`.
pub fn reallocation_size(size: usize, memory_type: MemoryType) -> (total: Option<usize>)
    ensures
        match total {
            Some(t) => size + spec_refcount_offset(memory_type) <= usize::MAX
                && t == size + spec_refcount_offset(memory_type),
            None => size + spec_refcount_offset(memory_type) > usize::MAX,
        },
{
    let offset = refcount_offset(memory_type);
    size.checked_add(offset)
}

} // verus!
