use moo_rust::memory::{allocation_size, reallocation_size, refcount_offset, MemoryType};

#[test]
fn refcount_offsets() {
    assert_eq!(refcount_offset(MemoryType::M_STRING), 4);
    assert_eq!(refcount_offset(MemoryType::M_LIST), 8);
    assert_eq!(refcount_offset(MemoryType::M_FLOAT), 8);
    assert_eq!(refcount_offset(MemoryType::M_AST), 0);
    assert_eq!(refcount_offset(MemoryType::M_STRING_PTRS), 0);
    assert_eq!(refcount_offset(MemoryType::Sizeof_Memory_Type), 0);
}

#[test]
fn allocation_sizes() {
    assert_eq!(allocation_size(0, MemoryType::M_STRING), Some(5));
    assert_eq!(allocation_size(0, MemoryType::M_AST), Some(1));
    assert_eq!(allocation_size(10, MemoryType::M_LIST), Some(18));
    assert_eq!(allocation_size(usize::MAX, MemoryType::M_AST), Some(usize::MAX));
    assert_eq!(allocation_size(usize::MAX, MemoryType::M_STRING), None);
}

#[test]
fn reallocation_sizes() {
    assert_eq!(reallocation_size(0, MemoryType::M_STRING), Some(4));
    assert_eq!(reallocation_size(0, MemoryType::M_AST), Some(0));
    assert_eq!(reallocation_size(16, MemoryType::M_FLOAT), Some(24));
    assert_eq!(reallocation_size(usize::MAX - 7, MemoryType::M_FLOAT), None);
}
