pub mod a_star;
