pub mod score;
pub mod record;
pub mod bucket;
