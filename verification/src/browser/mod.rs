pub mod bookmarks;
pub mod history;
pub mod tabs;
