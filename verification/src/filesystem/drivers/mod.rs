pub mod fat32;
