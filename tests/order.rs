use backend::UpdateOrderStatusRequestDto;

#[test]
fn status_request_holds_its_fields() {
    let r = UpdateOrderStatusRequestDto { order_id: 7, status: String::from("completed") };
    assert_eq!(r.order_id, 7);
    assert_eq!(r.status, "completed");
}
