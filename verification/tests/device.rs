use life_rust::context::{plan_queues, position, QueueFamily, QueuePurpose};
use life_rust::game_impls::compute;
use life_rust::{Gol, GolError};

#[test]
fn cells_become_texels_and_back() {
    assert_eq!(compute::encode_cells(&[true, false, false, true]), vec![1u8, 0, 0, 1]);
    assert_eq!(compute::encode_cells(&[]), Vec::<u8>::new());
    // every texel but 0 is a live cell
    assert_eq!(compute::decode_cells(&[0, 1, 2, 255]), vec![false, true, true, true]);
    let cells = vec![true, true, false, true, false];
    assert_eq!(compute::decode_cells(&compute::encode_cells(&cells)), cells);
}

#[test]
fn work_groups_cover_the_grid() {
    assert_eq!(compute::work_group_counts((1, 1)), [1, 1, 1]);
    assert_eq!(compute::work_group_counts((5, 5)), [1, 1, 1]);
    assert_eq!(compute::work_group_counts((8, 8)), [1, 1, 1]);
    assert_eq!(compute::work_group_counts((9, 9)), [2, 2, 1]);
    assert_eq!(compute::work_group_counts((16, 17)), [2, 3, 1]);
    assert_eq!(compute::work_group_counts((128, 128)), [16, 16, 1]);
    assert_eq!(
        compute::work_group_counts((u32::MAX as usize, 1)),
        [1 << 29, 1, 1]
    );
}

#[test]
fn image_extent_is_one_texel_deep() {
    assert_eq!(compute::image_extent(5), [5, 5, 1]);
    assert_eq!(compute::image_extent(128), [128, 128, 1]);
    assert_eq!(compute::image_texels(compute::image_extent(5)), 25);
    assert_eq!(compute::image_texels([3, 4, 5]), 60);
    assert_eq!(compute::image_texels([0, 4, 5]), 0);
    assert_eq!(
        compute::image_texels([u32::MAX, u32::MAX, u32::MAX]),
        79228162458924105385300197375
    );
}

#[test]
fn kernel_writes_its_own_cell_only() {
    // the blinker on a grid of side 5
    let src: Vec<u8> = vec![
        0, 0, 0, 0, 0, //
        0, 0, 1, 0, 0, //
        0, 0, 1, 0, 0, //
        0, 0, 1, 0, 0, //
        0, 0, 0, 0, 0,
    ];
    let mut dest = vec![7u8; 25];
    compute::kernel_main([5, 5], &src, &mut dest, 1, 2);
    let mut expected = vec![7u8; 25];
    expected[11] = 1;
    assert_eq!(dest, expected);
    compute::kernel_main([5, 5], &src, &mut dest, 2, 1);
    expected[7] = 0;
    assert_eq!(dest, expected);
    // invocations beyond the grid write nothing
    compute::kernel_main([5, 5], &src, &mut dest, 5, 0);
    compute::kernel_main([5, 5], &src, &mut dest, 0, 5);
    compute::kernel_main([5, 5], &src, &mut dest, 7, 7);
    compute::kernel_main([5, 5], &src, &mut dest, u64::MAX, 0);
    assert_eq!(dest, expected);
}

#[test]
fn kernel_takes_any_texel_but_zero_for_alive() {
    let src: Vec<u8> = vec![
        0, 0, 0, 0, 0, //
        0, 0, 255, 0, 0, //
        0, 0, 2, 0, 0, //
        0, 0, 9, 0, 0, //
        0, 0, 0, 0, 0,
    ];
    let dest = compute::dispatch([5, 5], &src, 1, 1);
    let expected: Vec<u8> = vec![
        0, 0, 0, 0, 0, //
        0, 0, 0, 0, 0, //
        0, 1, 1, 1, 0, //
        0, 0, 0, 0, 0, //
        0, 0, 0, 0, 0,
    ];
    assert_eq!(dest, expected);
}

#[test]
fn dispatch_reaches_the_cells_that_its_groups_cover() {
    // a grid of side 9 with two blinkers, one in the last column and one in
    // the last row
    let size = 9usize;
    let mut cells = vec![false; size * size];
    for k in 1..4 {
        cells[k * size + 8] = true;
        cells[8 * size + k + 3] = true;
    }
    let src = compute::encode_cells(&cells);
    let game = compute::GameState::from_slice(size, &cells).unwrap();
    let whole = compute::encode_cells(&game.to_next().to_vec());

    // two groups along each axis cover all 9 columns and rows
    assert_eq!(compute::dispatch([9, 9], &src, 2, 2), whole);
    assert_eq!(compute::dispatch([9, 9], &src, 3, 5), whole);
    // one group covers 8 of them: the last column and the last row are left
    // as a fresh image has them
    let partial = compute::dispatch([9, 9], &src, 1, 1);
    for y in 0..size {
        for x in 0..size {
            let expected = if x < 8 && y < 8 { whole[y * size + x] } else { 0 };
            assert_eq!(partial[y * size + x], expected, "x = {}, y = {}", x, y);
        }
    }
    assert_eq!(whole[2 * size + 8], 1);
    assert_eq!(whole[8 * size + 5], 1);
    assert_eq!(partial[2 * size + 7], 1);
    assert_eq!(partial[7 * size + 5], 1);
    // no group, no invocation
    assert_eq!(compute::dispatch([9, 9], &src, 0, 2), vec![0u8; 81]);
    assert_eq!(compute::dispatch([9, 9], &src, 2, 0), vec![0u8; 81]);
}

#[test]
fn image_read_back_becomes_a_generation() {
    let texels: Vec<u8> = vec![0, 1, 1, 0];
    let game = compute::GameState::from_texels(2, texels.clone()).unwrap();
    assert_eq!(game.to_vec(), vec![false, true, true, false]);
    assert_eq!(game.texels(), texels);
    assert_eq!(game.bounds(), [2, 2]);
    let game = compute::GameState::from_texels(2, vec![0, 3, 200, 0]).unwrap();
    assert_eq!(game.to_vec(), vec![false, true, true, false]);
}

#[test]
fn image_of_the_wrong_size_is_a_failed_dispatch() {
    assert_eq!(
        compute::GameState::from_texels(2, vec![0, 1, 1]).unwrap_err(),
        GolError::DispatchFailure
    );
    assert_eq!(
        compute::GameState::from_texels(2, vec![0; 5]).unwrap_err(),
        GolError::DispatchFailure
    );
    assert_eq!(
        compute::GameState::from_texels(3, Vec::new()).unwrap_err(),
        GolError::DispatchFailure
    );
    assert_eq!(
        compute::GameState::from_texels(usize::MAX, vec![0]).unwrap_err(),
        GolError::DispatchFailure
    );
}

#[test]
fn compute_state_holds_one_texel_per_cell() {
    let cells = vec![true, false, false, false, true, false, false, false, true];
    let game = compute::GameState::from_slice(3, &cells).unwrap();
    assert_eq!(game.texels(), vec![1u8, 0, 0, 0, 1, 0, 0, 0, 1]);
    assert_eq!(game.bounds(), [3, 3]);
}

const ALL: QueueFamily = QueueFamily { graphics: true, compute: true, transfer: true };
const COMPUTE: QueueFamily = QueueFamily { graphics: false, compute: true, transfer: true };
const TRANSFER: QueueFamily = QueueFamily { graphics: false, compute: false, transfer: true };
const NOTHING: QueueFamily = QueueFamily { graphics: false, compute: false, transfer: false };

#[test]
fn position_finds_the_first_family() {
    let families = [NOTHING, COMPUTE, ALL, TRANSFER, ALL, COMPUTE, TRANSFER];
    assert_eq!(position(&families, QueuePurpose::Graphics), Some(2));
    assert_eq!(position(&families, QueuePurpose::Compute), Some(1));
    assert_eq!(position(&families, QueuePurpose::Transfer), Some(3));
    assert_eq!(position(&[ALL], QueuePurpose::Compute), None);
    assert_eq!(position(&[ALL, COMPUTE], QueuePurpose::Transfer), None);
    assert_eq!(position(&[], QueuePurpose::Graphics), None);
}

#[test]
fn queues_of_their_own_where_the_device_has_them() {
    let plan = plan_queues(&[ALL, COMPUTE, TRANSFER]).unwrap();
    assert_eq!(plan.queue_family_indices, vec![0, 1, 2]);
    assert_eq!(plan.graphics_queue_index, 0);
    assert_eq!(plan.compute_queue_index, 1);
    assert_eq!(plan.transfer_queue_index, 2);

    let plan = plan_queues(&[TRANSFER, NOTHING, COMPUTE, ALL, ALL]).unwrap();
    assert_eq!(plan.queue_family_indices, vec![3, 2, 0]);
    assert_eq!(plan.graphics_queue_index, 0);
    assert_eq!(plan.compute_queue_index, 1);
    assert_eq!(plan.transfer_queue_index, 2);
}

#[test]
fn graphics_queue_stands_in_for_the_others() {
    let plan = plan_queues(&[ALL]).unwrap();
    assert_eq!(plan.queue_family_indices, vec![0]);
    assert_eq!(plan.graphics_queue_index, 0);
    assert_eq!(plan.compute_queue_index, 0);
    assert_eq!(plan.transfer_queue_index, 0);

    let plan = plan_queues(&[TRANSFER, ALL]).unwrap();
    assert_eq!(plan.queue_family_indices, vec![1, 0]);
    assert_eq!(plan.graphics_queue_index, 0);
    assert_eq!(plan.compute_queue_index, 0);
    assert_eq!(plan.transfer_queue_index, 1);

    let plan = plan_queues(&[ALL, COMPUTE]).unwrap();
    assert_eq!(plan.queue_family_indices, vec![0, 1]);
    assert_eq!(plan.graphics_queue_index, 0);
    assert_eq!(plan.compute_queue_index, 1);
    assert_eq!(plan.transfer_queue_index, 0);
}

#[test]
fn device_without_graphics_is_unavailable() {
    assert_eq!(plan_queues(&[]).unwrap_err(), GolError::DeviceUnavailable);
    assert_eq!(
        plan_queues(&[COMPUTE, TRANSFER, NOTHING]).unwrap_err(),
        GolError::DeviceUnavailable
    );
}
