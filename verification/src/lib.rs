mod clock;
pub mod date;
pub mod dates;
pub mod digits;
pub mod record;
pub mod stats;

pub use date::CalendarDate;
pub use date::ValidationError;
pub use dates::Dates;
pub use dates::IndexError;
pub use record::ParseError;
pub use stats::Home;
