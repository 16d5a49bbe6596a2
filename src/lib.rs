//! A recursive quadtree over integer rectangles: objects are routed into the
//! single quadrant that strictly contains them, nodes split once they hold too
//! many objects, and retrieval collects the objects met along one descent.
pub mod qtree;
pub mod rect;
pub mod laws;
