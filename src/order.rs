use vstd::prelude::*;

verus! {

/// A request to move an order to a new status.
#[derive(Debug)]
pub struct UpdateOrderStatusRequestDto {
    pub order_id: i32,
    pub status: String,
}

} // verus!
