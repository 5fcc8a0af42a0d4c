pub mod word_tree;
