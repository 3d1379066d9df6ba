pub mod text;
pub mod markdown;
pub mod html;
pub mod date;
pub mod driver;
pub mod race_results;
pub mod prepare_files;
pub mod race;
pub mod bot;
pub mod parse;
pub mod request_to_website;
