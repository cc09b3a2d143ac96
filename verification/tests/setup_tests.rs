use eruptrace::pipeline::{descriptor_pool_types, descriptor_write_runs, BindingDesc, WriteRun};
use eruptrace::surface::{
    choose_surface_format, SurfaceFormat, FORMAT_A8B8G8R8_UNORM_PACK32, FORMAT_B8G8R8A8_UNORM,
    FORMAT_R8G8B8A8_UNORM, FORMAT_UNDEFINED,
};

const UNIFORM_BUFFER: i32 = 6;
const STORAGE_BUFFER: i32 = 7;
const COMBINED_IMAGE_SAMPLER: i32 = 1;

fn buffer(ty: i32) -> BindingDesc {
    BindingDesc { descriptor_type: ty, has_image: false, has_buffer: true, sampler_index: None }
}

fn image(ty: i32, sampler: usize) -> BindingDesc {
    BindingDesc { descriptor_type: ty, has_image: true, has_buffer: false, sampler_index: Some(sampler) }
}

fn run(first_binding: usize, count: usize, descriptor_type: i32, samplers: Option<Vec<usize>>) -> WriteRun {
    WriteRun {
        first_binding,
        count,
        descriptor_type,
        is_image: samplers.is_some(),
        bindings: (first_binding..first_binding + count).collect(),
        samplers: samplers.unwrap_or_default(),
    }
}

#[test]
fn bindings_are_written_in_runs_of_one_kind() {
    let bindings = vec![
        buffer(UNIFORM_BUFFER),
        buffer(STORAGE_BUFFER),
        buffer(STORAGE_BUFFER),
        buffer(STORAGE_BUFFER),
        image(COMBINED_IMAGE_SAMPLER, 3),
        image(COMBINED_IMAGE_SAMPLER, 1),
        buffer(UNIFORM_BUFFER),
    ];
    assert_eq!(
        descriptor_write_runs(&bindings),
        vec![
            run(0, 1, UNIFORM_BUFFER, None),
            run(1, 3, STORAGE_BUFFER, None),
            run(4, 2, COMBINED_IMAGE_SAMPLER, Some(vec![3, 1])),
            run(6, 1, UNIFORM_BUFFER, None),
        ]
    );
    // Each binding is written by exactly one run.
    let runs = descriptor_write_runs(&bindings);
    for i in 0..bindings.len() {
        assert_eq!(runs.iter().filter(|r| r.first_binding <= i && i < r.first_binding + r.count).count(), 1);
    }
}

#[test]
fn same_type_but_image_and_buffer_are_two_runs() {
    let bindings = vec![buffer(COMBINED_IMAGE_SAMPLER), image(COMBINED_IMAGE_SAMPLER, 0)];
    assert_eq!(
        descriptor_write_runs(&bindings),
        vec![run(0, 1, COMBINED_IMAGE_SAMPLER, None), run(1, 1, COMBINED_IMAGE_SAMPLER, Some(vec![0]))]
    );
    assert_eq!(descriptor_write_runs(&vec![buffer(STORAGE_BUFFER)]), vec![run(0, 1, STORAGE_BUFFER, None)]);
}

#[test]
fn pool_sizes_drop_repeated_types_only_when_adjacent() {
    let sets = vec![
        vec![buffer(UNIFORM_BUFFER), buffer(UNIFORM_BUFFER), buffer(STORAGE_BUFFER)],
        vec![buffer(STORAGE_BUFFER), image(COMBINED_IMAGE_SAMPLER, 0)],
        vec![],
        vec![buffer(UNIFORM_BUFFER)],
    ];
    assert_eq!(descriptor_pool_types(&sets), vec![UNIFORM_BUFFER, STORAGE_BUFFER, COMBINED_IMAGE_SAMPLER, UNIFORM_BUFFER]);
    assert_eq!(descriptor_pool_types(&vec![]), Vec::<i32>::new());
}

fn sf(format: i32, color_space: i32) -> SurfaceFormat {
    SurfaceFormat { format, color_space }
}

#[test]
fn undefined_surface_format_takes_bgra() {
    assert_eq!(choose_surface_format(&vec![sf(FORMAT_UNDEFINED, 5)]), sf(FORMAT_B8G8R8A8_UNORM, 5));
}

#[test]
fn first_preferred_surface_format_is_taken() {
    let offered = vec![sf(100, 0), sf(FORMAT_A8B8G8R8_UNORM_PACK32, 1), sf(FORMAT_R8G8B8A8_UNORM, 0)];
    assert_eq!(choose_surface_format(&offered), sf(FORMAT_A8B8G8R8_UNORM_PACK32, 1));
    let offered = vec![sf(FORMAT_UNDEFINED, 3), sf(FORMAT_B8G8R8A8_UNORM, 2)];
    assert_eq!(choose_surface_format(&offered), sf(FORMAT_B8G8R8A8_UNORM, 2));
}

#[test]
fn without_preferred_surface_format_the_first_is_taken() {
    let offered = vec![sf(100, 4), sf(101, 0)];
    assert_eq!(choose_surface_format(&offered), sf(100, 4));
}
