pub mod click_data;
pub mod confirmation;
pub mod entry;
pub mod events;
pub mod explorer;
pub mod input;
pub mod reconcile;
pub mod sh;
pub mod state;
pub mod style;
