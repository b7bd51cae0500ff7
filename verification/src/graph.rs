//! Directed graphs whose vertices carry data.

use vstd::prelude::*;

verus! {

/// A directed graph: the data of each vertex, numbered in the order the
/// vertices were added, and the edges between vertex numbers in the order
/// they were added.
#[derive(Debug, PartialEq)]
pub struct DataGraph<T> {
    vertices: Vec<T>,
    edges: Vec<(usize, usize)>,
}

impl<T> DataGraph<T> {
    /// The data of the vertices.
    pub closed spec fn vertices_view(&self) -> Seq<T> {
        self.vertices@
    }

    /// The edges.
    pub closed spec fn edges_view(&self) -> Seq<(usize, usize)> {
        self.edges@
    }

    /// The graph without vertices.
    pub fn new() -> (r: Self)
        ensures
            r.vertices_view() == Seq::<T>::empty(),
            r.edges_view() == Seq::<(usize, usize)>::empty(),
    {
        DataGraph { vertices: Vec::new(), edges: Vec::new() }
    }

    /// Adds a vertex carrying `data` and returns its number.
    pub fn add_vertex(&mut self, data: T) -> (r: usize)
        ensures
            r == old(self).vertices_view().len(),
            final(self).vertices_view() == old(self).vertices_view().push(data),
            final(self).edges_view() == old(self).edges_view(),
    {
        let r = self.vertices.len();
        self.vertices.push(data);
        r
    }

    /// Adds an edge from vertex `from` to vertex `to`.
    pub fn add_edge(&mut self, from: usize, to: usize)
        ensures
            final(self).vertices_view() == old(self).vertices_view(),
            final(self).edges_view() == old(self).edges_view().push((from, to)),
    {
        self.edges.push((from, to));
    }

    /// The data of the vertices, by number.
    pub fn vertices(&self) -> (r: &Vec<T>)
        ensures
            r@ == self.vertices_view(),
    {
        &self.vertices
    }

    /// The edges, in the order they were added.
    pub fn edges(&self) -> (r: &Vec<(usize, usize)>)
        ensures
            r@ == self.edges_view(),
    {
        &self.edges
    }
}

} // verus!
