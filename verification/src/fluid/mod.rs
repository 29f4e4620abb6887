pub mod erosion;
