pub mod inner;
