use image::{DynamicImage, ImageFormat, Rgb, RgbImage, RgbaImage};
use media_grid::canvas::{blank_canvas, normalize_cell, paint_cell, paste_cell, render_sheet, CellError};
use media_grid::sheet::{plan_sheet, PasteJob, SheetError, SheetPlan};
use std::io::Cursor;

fn paths(list: &[&str]) -> Vec<String> {
    list.iter().map(|s| s.to_string()).collect()
}

fn png_bytes(img: DynamicImage) -> Vec<u8> {
    let mut out = Cursor::new(Vec::new());
    img.write_to(&mut out, ImageFormat::Png).unwrap();
    out.into_inner()
}

fn solid(width: u32, height: u32, color: [u8; 3]) -> Vec<u8> {
    png_bytes(DynamicImage::ImageRgb8(RgbImage::from_pixel(width, height, Rgb(color))))
}

fn jobs_of(plan: &SheetPlan) -> Vec<(u64, &str, u32, u32)> {
    plan.jobs.iter().map(|j| (j.index, j.path.as_str(), j.x, j.y)).collect()
}

#[test]
fn empty_catalog_is_an_error() {
    assert_eq!(plan_sheet(&paths(&[]), 256, 256).err(), Some(SheetError::EmptyCatalog));
    assert_eq!(plan_sheet(&paths(&["a.txt", "b.doc"]), 256, 256).err(), Some(SheetError::EmptyCatalog));
}

#[test]
fn too_large_canvas_is_an_error() {
    assert_eq!(plan_sheet(&paths(&["a.png", "b.png"]), u32::MAX, 8).err(), Some(SheetError::CanvasTooLarge));
}

#[test]
fn video_takes_a_cell_but_is_never_painted() {
    let plan = plan_sheet(&paths(&["d/a.png", "d/clip.mp4", "d/b.jpg"]), 256, 256).unwrap();
    assert_eq!(plan.geometry.side, 2);
    assert_eq!(jobs_of(&plan), vec![(0, "d/a.png", 0, 0), (2, "d/b.jpg", 0, 256)]);
}

#[test]
fn only_video_plans_no_paint() {
    let plan = plan_sheet(&paths(&["d/clip.mp4"]), 256, 256).unwrap();
    assert_eq!(plan.geometry.side, 1);
    assert!(plan.jobs.is_empty());
    let canvas = blank_canvas(&plan.geometry).unwrap();
    assert!(canvas.as_rgb8().unwrap().pixels().all(|p| *p == Rgb([0, 0, 0])));
}

#[test]
fn single_image_is_stretched_over_the_canvas() {
    let mut src = RgbImage::new(200, 100);
    for (x, y, p) in src.enumerate_pixels_mut() {
        *p = Rgb([x as u8, y as u8, 200]);
    }
    let bytes = png_bytes(DynamicImage::ImageRgb8(src.clone()));
    let plan = plan_sheet(&paths(&["pics/one.png"]), 256, 256).unwrap();
    assert_eq!(plan.geometry.canvas_width, 256);
    assert_eq!(plan.geometry.canvas_height, 256);
    assert_eq!(plan.jobs.len(), 1);
    let mut canvas = blank_canvas(&plan.geometry).unwrap();
    assert_eq!(paint_cell(&mut canvas, &bytes, &plan.jobs[0], &plan.geometry), Ok(()));
    let expected = DynamicImage::ImageRgb8(src).resize_exact(256, 256, image::imageops::FilterType::Triangle);
    assert_eq!(canvas.as_rgb8().unwrap(), expected.as_rgb8().unwrap());
}

#[test]
fn corrupt_image_leaves_its_cell_black() {
    let plan = plan_sheet(&paths(&["a.png", "b.png", "c.png", "d.png"]), 4, 4).unwrap();
    assert_eq!(plan.geometry.side, 2);
    let files = [solid(3, 3, [255, 0, 0]), solid(5, 2, [0, 255, 0]), b"not an image".to_vec(), solid(1, 1, [0, 0, 255])];
    let mut canvas = blank_canvas(&plan.geometry).unwrap();
    let mut outcomes = Vec::new();
    for job in &plan.jobs {
        outcomes.push(paint_cell(&mut canvas, &files[job.index as usize], job, &plan.geometry));
    }
    assert_eq!(outcomes, vec![Ok(()), Ok(()), Err(CellError::Undecodable), Ok(())]);
    let rgb = canvas.as_rgb8().unwrap();
    // index 0 sits at (row 0, col 0), index 1 at (1, 1), index 2 at (1, 0);
    // index 3 rounds to row 2, below the canvas, and is clipped away.
    assert_eq!(*rgb.get_pixel(1, 1), Rgb([255, 0, 0]));
    assert_eq!(*rgb.get_pixel(5, 5), Rgb([0, 255, 0]));
    assert_eq!(*rgb.get_pixel(1, 5), Rgb([0, 0, 0]));
    assert_eq!(*rgb.get_pixel(5, 1), Rgb([0, 0, 0]));
}

#[test]
fn image_with_alpha_is_converted_and_painted() {
    let src = RgbaImage::from_pixel(2, 2, image::Rgba([10, 20, 30, 255]));
    let bytes = png_bytes(DynamicImage::ImageRgba8(src.clone()));
    let plan = plan_sheet(&paths(&["a.png"]), 4, 4).unwrap();
    let mut canvas = blank_canvas(&plan.geometry).unwrap();
    assert_eq!(paint_cell(&mut canvas, &bytes, &plan.jobs[0], &plan.geometry), Ok(()));
    let expected = DynamicImage::ImageRgba8(src).resize_exact(4, 4, image::imageops::FilterType::Triangle).to_rgb8();
    assert_eq!(canvas.as_rgb8().unwrap(), &expected);
}

#[test]
fn grayscale_image_is_converted_and_painted() {
    let src = image::GrayImage::from_pixel(3, 1, image::Luma([77]));
    let bytes = png_bytes(DynamicImage::ImageLuma8(src));
    let cell = normalize_cell(&bytes, 2, 2).unwrap();
    assert_eq!(cell.as_rgb8().unwrap().dimensions(), (2, 2));
    assert!(cell.as_rgb8().unwrap().pixels().all(|p| *p == Rgb([77, 77, 77])));
}

#[test]
fn undecodable_bytes_leave_canvas_untouched() {
    let plan = plan_sheet(&paths(&["a.png"]), 4, 4).unwrap();
    let mut canvas = blank_canvas(&plan.geometry).unwrap();
    let before = canvas.clone();
    assert_eq!(paint_cell(&mut canvas, b"", &plan.jobs[0], &plan.geometry), Err(CellError::Undecodable));
    assert_eq!(canvas, before);
    assert_eq!(normalize_cell(b"garbage", 4, 4).err(), Some(CellError::Undecodable));
}

#[test]
fn normalized_cell_has_the_cell_size() {
    let cell = normalize_cell(&solid(200, 100, [9, 9, 9]), 16, 8).unwrap();
    assert_eq!(cell.as_rgb8().unwrap().dimensions(), (16, 8));
}

#[test]
fn paste_replaces_pixels_and_clips() {
    let mut canvas = DynamicImage::ImageRgb8(RgbImage::from_pixel(3, 3, Rgb([1, 1, 1])));
    let top = DynamicImage::ImageRgb8(RgbImage::from_pixel(2, 2, Rgb([9, 8, 7])));
    let job = PasteJob { index: 0, path: String::new(), x: 2, y: 1 };
    paste_cell(&mut canvas, &top, &job);
    let rgb = canvas.as_rgb8().unwrap();
    assert_eq!(rgb.dimensions(), (3, 3));
    assert_eq!(*rgb.get_pixel(2, 1), Rgb([9, 8, 7]));
    assert_eq!(*rgb.get_pixel(2, 2), Rgb([9, 8, 7]));
    assert_eq!(*rgb.get_pixel(1, 1), Rgb([1, 1, 1]));
    assert_eq!(*rgb.get_pixel(2, 0), Rgb([1, 1, 1]));
    let off = PasteJob { index: 0, path: String::new(), x: 3, y: 0 };
    let before = canvas.clone();
    paste_cell(&mut canvas, &top, &off);
    assert_eq!(canvas, before);
}

#[test]
fn one_pixel_cells_fill_by_rounded_rows() {
    let walk: Vec<String> = (0..9).map(|k| format!("p{}.png", k)).collect();
    let plan = plan_sheet(&walk, 1, 1).unwrap();
    assert_eq!(plan.geometry.side, 3);
    let contents: Vec<Option<Vec<u8>>> = (0..9u8).map(|k| Some(solid(1, 1, [k + 1, 0, 0]))).collect();
    let mut canvas = blank_canvas(&plan.geometry).unwrap();
    assert_eq!(render_sheet(&mut canvas, &plan, &contents), vec![true; 9]);
    let rgb = canvas.as_rgb8().unwrap();
    let rows: Vec<Vec<u8>> = (0..3).map(|y| (0..3).map(|x| rgb.get_pixel(x, y)[0]).collect()).collect();
    assert_eq!(rows, vec![vec![1, 2, 0], vec![4, 5, 3], vec![7, 8, 6]]);
}

#[test]
fn render_goes_on_past_failures() {
    let plan = plan_sheet(&paths(&["a.png", "v.mov", "b.png", "c.png"]), 2, 2).unwrap();
    assert_eq!(plan.jobs.len(), 3);
    let contents = vec![Some(solid(1, 1, [5, 5, 5])), Some(b"broken".to_vec()), None];
    let mut canvas = blank_canvas(&plan.geometry).unwrap();
    assert_eq!(render_sheet(&mut canvas, &plan, &contents), vec![true, false, false]);
    let rgb = canvas.as_rgb8().unwrap();
    assert_eq!(*rgb.get_pixel(0, 0), Rgb([5, 5, 5]));
    let black = rgb.enumerate_pixels().filter(|(x, y, _)| *x >= 2 || *y >= 2).all(|(_, _, p)| *p == Rgb([0, 0, 0]));
    assert!(black);
}

#[test]
fn same_walk_gives_same_pixels() {
    let walk = paths(&["a.png", "b.png"]);
    let files = [solid(7, 3, [10, 20, 30]), solid(2, 9, [40, 50, 60])];
    let render = || {
        let plan = plan_sheet(&walk, 8, 8).unwrap();
        let mut canvas = blank_canvas(&plan.geometry).unwrap();
        for job in &plan.jobs {
            paint_cell(&mut canvas, &files[job.index as usize], job, &plan.geometry).unwrap();
        }
        canvas.as_rgb8().unwrap().clone()
    };
    assert_eq!(render(), render());
}
