//! Request shapes for order lifecycle updates.

use vstd::prelude::*;

verus! {

/// A request to move an order to another lifecycle status.
#[derive(Debug)]
pub struct UpdateOrderStatusRequestDto {
    pub order_id: i32,
    pub status: String,
}

} // verus!
