pub mod errors;
pub mod page;
pub mod paths;
pub mod pipeline;
pub mod site;

pub use errors::BuildError;
pub use page::Page;
pub use site::Site;
pub use site::SiteNode;
