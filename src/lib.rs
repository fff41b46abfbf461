pub mod amino;
pub mod blosum;
pub mod needleman;
pub mod genome;
pub mod union_find;
pub mod cluster;
pub mod kruskal;
