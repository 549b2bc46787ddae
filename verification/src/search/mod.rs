//! The search modules.

pub mod bulk_scorer;
pub mod collector;
pub mod constant_score_weight;
pub mod controlled_real_time_reopen_thread;
pub mod dense_conjunction_bulk_scorer;
pub mod disi_priority_queue;
pub mod disi_wrapper;
pub mod disjunction_disi_approximation;
pub mod disjunction_max_bulk_scorer;
pub mod disjunction_max_query;
pub mod disjunction_score_block_boundary_propagator;
pub mod disjunction_scorer;
pub mod disjunction_matches_iterator;
pub mod disjunction_sum_scorer;
pub mod doc_and_score_query;
pub mod doc_id_set;
pub mod doc_id_set_bulk_iterator;
pub mod doc_id_set_iterator;
pub mod doc_id_stream;
pub mod doc_values;
pub mod doc_values_access;
pub mod doc_values_iteration;
pub mod doc_values_range_iterator;
pub mod doc_values_rewrite_method;
pub mod double_values;
pub mod double_values_comparator;
pub mod double_values_source;
pub mod double_values_source_rescorer;
pub mod exact_phrase_matcher;
pub mod explanation;
pub mod field_comparator;
pub mod field_comparator_source;
pub mod field_doc;
pub mod field_exists_query;
pub mod field_value_hit_queue;
pub mod filter_matches_iterator;
pub mod float_vector_similarity_values_source;
pub mod full_precision_float_vector_similarity_values_source;
pub mod fuzzy_automaton_builder;
pub mod fuzzy_query;
pub mod fuzzy_terms_enum;
pub mod hit_queue;
pub mod hnsw_queue_saturation_collector;
pub mod impacts_disi;
pub mod index_or_doc_values_query;
pub mod index_priority_queue;
pub mod index_searcher;
pub mod index_sort_sorted_numeric_doc_values_range_query;
pub mod indri_and_query;
pub mod indri_and_scorer;
pub mod indri_and_weight;
pub mod indri_disjunction_scorer;
pub mod indri_query;
pub mod indri_scorer;
pub mod knn;
pub mod leaf_reader;
pub mod matches;
pub mod query;
pub mod query_timeout;
pub mod score_mode;
pub mod scorer;
pub mod scorer_supplier;
pub mod source_values;
pub mod top_docs;
pub mod vectors;
pub mod weight;
