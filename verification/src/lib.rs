//! Gateway to a remote HTTP item-management service.
//!
//! The gateway is stateless: each operation is a single request/response
//! exchange. This library holds everything about an exchange that can be
//! computed: the request URLs, the classification of a response status,
//! the decoding of a list-response body, and the rendering of errors.
//! The network transport itself stays outside.

pub mod error;
pub mod gateway;
pub mod item;
pub mod json;
pub mod numeral;
pub mod status;
pub mod urls;

pub use error::GatewayError;
pub use gateway::interpret_delete_response;
pub use gateway::interpret_list_response;
pub use item::ItemView;
pub use item::WaygateItem;
pub use json::decode_items;
pub use status::is_success_status;
pub use urls::delete_item_url;
pub use urls::list_items_url;
