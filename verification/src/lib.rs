//! Classic data structures with verified contracts: singly and doubly ended
//! lists, a persistent list, a binary min-heap with heapsort, a naive FIFO
//! queue, a longest-increasing-subsequence helper, and two graph engines —
//! an undirected graph with lazy depth-first and breadth-first traversal
//! producers, and a weighted graph with an all-pairs shortest-path matrix.

pub mod heap;
pub mod linked_list;
pub mod linked_list_fifth;
pub mod linked_list_fourth;
pub mod linked_list_third;
pub mod lis;
pub mod unefficient_queue;
pub mod undirected_graph;
pub mod weighted_graph;
