pub mod contacts;
pub mod db_contacts;
pub mod inmemory_contacts;
