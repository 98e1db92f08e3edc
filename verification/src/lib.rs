//! Verified core of a neighbor-list library for molecular simulation: the
//! neighbor-list record type, the cell-list bin grid and its candidate
//! search, periodic-image enumeration, batch bookkeeping and the flat buffer
//! layout of the GPU path.
mod batch;
mod gpu_layout;
mod grid;
mod images;
mod neighbor_list;
mod search_laws;

pub use batch::{
    atom_work_items, batch_stream, counts_before, group_by_system, lemma_batch_matches_single_system,
    lemma_records_of_concat, lemma_work_items_index, lemma_records_of_partition, lemma_records_of_tagged, lists_total, records_of, stream_total, system_records, tag_records,
    work_upto, TaggedPair,
};
pub use gpu_layout::{
    atoms_before, batch_concat, bin_atoms_from, bin_slots_before, bin_starts, build_batch_layout,
    decode_gpu_pairs, flat3, global_atom, gpu_record, gpu_record_ok, gpu_stream,
    initial_output_capacity, layout_atom_bin, layout_atom_system, layout_bin_atoms,
    layout_bin_start, layout_floor, layout_sys_ints, lemma_batch_concat_index,
    lemma_bin_start_closes_system, lemma_gpu_record_roundtrip, lemma_layout_index,
    next_output_capacity, output_buffer_words, readback_words, system_ints, workgroup_count,
    BatchLayout, CapacityStep, MAX_GROWN_CAPACITY,
};
pub use grid::{
    bin_count, bin_count_spec, bin_in_grid, bin_index, bin_members, bins_before, build_bin_grid, clamp_spec,
    grid_volume, int_min, lemma_bin_index_in_range, lemma_bin_index_injective, lemma_bin_index_strides, lemma_bin_members,
    lemma_bins_before_monotone, lemma_bins_cover_atoms, members_total, wrap_axis, wrap_spec,
    BinGrid, GRID_LIMIT,
};
pub use images::{
    image_box, image_cell, image_hi, image_lo, image_shell_count, image_shifts, images_x,
    images_y, images_z, in_image_box, is_mirror, lemma_image_box_contains, lemma_image_box_no_duplicates,
    lemma_push_pair_keeps_mirror_balance, mirror_balanced, neg_shift,
};
pub use neighbor_list::{
    kept_records, lemma_kept_records_are_the_marked, lemma_kept_records_empty,
    lemma_kept_records_push, lemma_pair_order_lexicographic, lemma_pair_order_total,
    lemma_sorted_records_lexicographic, lemma_sorted_depends_only_on_records, min3, pair_le,
    pair_le_exec, pair_order, shift_le, NeighborList, PairEntry,
};
pub use search_laws::{
    is_reverse_shift, is_zero_shift, lemma_bin_records_contains, lemma_candidates_exactly,
    lemma_candidates_no_duplicates, lemma_candidates_symmetric, lemma_record_shift_places_image, lemma_cell_records_contains,
    lemma_wrap_inverse, lemma_wrap_reverse,
};
