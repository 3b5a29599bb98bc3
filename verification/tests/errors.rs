use open_data_structures::array_stack::ArrayStack;
use open_data_structures::CollectionError;
use open_data_structures::List;

#[test]
pub fn out_of_bound_message() {
    let mut array: ArrayStack<i32> = ArrayStack::new();
    let error: CollectionError = array.set(0, 1).unwrap_err();
    assert_eq!(error.message(), "out of bound");
}
