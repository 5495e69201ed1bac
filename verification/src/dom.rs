//! The whole vocabulary of the library under one path: the query, the text
//! policies, the attribute operations, the image source rewriting, element
//! creation and parsing.

pub use crate::attr::{get_attr, get_attr_by_name, get_attrs, set_attr};
pub use crate::factory::create_element;
pub use crate::img::fix_img_path;
pub use crate::model::{Attribute, Dom, DomNode, NodeData, NodeId, QualName};
pub use crate::parse::{parse_from, ParseError};
pub use crate::query::{get_tag_name, query_by_tagname};
pub use crate::text::{
    get_children_text_content, get_text_children_count, get_text_content, get_text_len,
};
