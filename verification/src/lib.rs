//! Password protection for static sites, run after the site generator and
//! before the deployment: marked nodes of a page are encrypted in place, and
//! feed entries that link to an encrypted page lose their body.

pub mod text;
pub mod glob;
pub mod url;
pub mod scan;
pub mod tags;
pub mod feed;
pub mod splice;
pub mod rerun;
pub mod crypto;
pub mod secrets;
pub mod config;
pub mod env;
pub mod markup;
pub mod dom;
pub mod node;
pub mod page;
pub mod paths;
pub mod site;
