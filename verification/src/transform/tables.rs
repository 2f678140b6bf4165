//! Integer core matrices of the separable transforms (H.266 §8.7.4.5): the
//! DCT-II of sizes 4 to 64 and the DST-VII / DCT-VIII of sizes 4 to 32, all
//! with 6-bit precision.
use vstd::prelude::*;

verus! {

/// 4-point DCT-II core matrix (row `k` is basis function `k`).
pub const T4: [[i8; 4]; 4] = [
    [64, 64, 64, 64],
    [83, 36, -36, -83],
    [64, -64, -64, 64],
    [36, -83, 83, -36],
];

/// 8-point DCT-II core matrix.
pub const T8: [[i8; 8]; 8] = [
    [64, 64, 64, 64, 64, 64, 64, 64],
    [89, 75, 50, 18, -18, -50, -75, -89],
    [83, 36, -36, -83, -83, -36, 36, 83],
    [75, -18, -89, -50, 50, 89, 18, -75],
    [64, -64, -64, 64, 64, -64, -64, 64],
    [50, -89, 18, 75, -75, -18, 89, -50],
    [36, -83, 83, -36, -36, 83, -83, 36],
    [18, -50, 75, -89, 89, -75, 50, -18],
];

/// 16-point DCT-II core matrix.
pub const T16: [[i8; 16]; 16] = [
    [64, 64, 64, 64, 64, 64, 64, 64, 64, 64, 64, 64, 64, 64, 64, 64],
    [90, 87, 80, 70, 57, 43, 25, 9, -9, -25, -43, -57, -70, -80, -87, -90],
    [89, 75, 50, 18, -18, -50, -75, -89, -89, -75, -50, -18, 18, 50, 75, 89],
    [87, 57, 9, -43, -80, -90, -70, -25, 25, 70, 90, 80, 43, -9, -57, -87],
    [83, 36, -36, -83, -83, -36, 36, 83, 83, 36, -36, -83, -83, -36, 36, 83],
    [80, 9, -70, -87, -25, 57, 90, 43, -43, -90, -57, 25, 87, 70, -9, -80],
    [75, -18, -89, -50, 50, 89, 18, -75, -75, 18, 89, 50, -50, -89, -18, 75],
    [70, -43, -87, 9, 90, 25, -80, -57, 57, 80, -25, -90, -9, 87, 43, -70],
    [64, -64, -64, 64, 64, -64, -64, 64, 64, -64, -64, 64, 64, -64, -64, 64],
    [57, -80, -25, 90, -9, -87, 43, 70, -70, -43, 87, 9, -90, 25, 80, -57],
    [50, -89, 18, 75, -75, -18, 89, -50, -50, 89, -18, -75, 75, 18, -89, 50],
    [43, -90, 57, 25, -87, 70, 9, -80, 80, -9, -70, 87, -25, -57, 90, -43],
    [36, -83, 83, -36, -36, 83, -83, 36, 36, -83, 83, -36, -36, 83, -83, 36],
    [25, -70, 90, -80, 43, 9, -57, 87, -87, 57, -9, -43, 80, -90, 70, -25],
    [18, -50, 75, -89, 89, -75, 50, -18, -18, 50, -75, 89, -89, 75, -50, 18],
    [9, -25, 43, -57, 70, -80, 87, -90, 90, -87, 80, -70, 57, -43, 25, -9],
];

/// 32-point DCT-II core matrix.
pub const T32: [[i8; 32]; 32] = [
    [64, 64, 64, 64, 64, 64, 64, 64, 64, 64, 64, 64, 64, 64, 64, 64, 64, 64, 64, 64, 64, 64, 64, 64, 64, 64, 64, 64, 64, 64, 64, 64],
    [90, 90, 88, 85, 82, 78, 73, 67, 61, 54, 46, 38, 31, 22, 13, 4, -4, -13, -22, -31, -38, -46, -54, -61, -67, -73, -78, -82, -85, -88, -90, -90],
    [90, 87, 80, 70, 57, 43, 25, 9, -9, -25, -43, -57, -70, -80, -87, -90, -90, -87, -80, -70, -57, -43, -25, -9, 9, 25, 43, 57, 70, 80, 87, 90],
    [90, 82, 67, 46, 22, -4, -31, -54, -73, -85, -90, -88, -78, -61, -38, -13, 13, 38, 61, 78, 88, 90, 85, 73, 54, 31, 4, -22, -46, -67, -82, -90],
    [89, 75, 50, 18, -18, -50, -75, -89, -89, -75, -50, -18, 18, 50, 75, 89, 89, 75, 50, 18, -18, -50, -75, -89, -89, -75, -50, -18, 18, 50, 75, 89],
    [88, 67, 31, -13, -54, -82, -90, -78, -46, -4, 38, 73, 90, 85, 61, 22, -22, -61, -85, -90, -73, -38, 4, 46, 78, 90, 82, 54, 13, -31, -67, -88],
    [87, 57, 9, -43, -80, -90, -70, -25, 25, 70, 90, 80, 43, -9, -57, -87, -87, -57, -9, 43, 80, 90, 70, 25, -25, -70, -90, -80, -43, 9, 57, 87],
    [85, 46, -13, -67, -90, -73, -22, 38, 82, 88, 54, -4, -61, -90, -78, -31, 31, 78, 90, 61, 4, -54, -88, -82, -38, 22, 73, 90, 67, 13, -46, -85],
    [83, 36, -36, -83, -83, -36, 36, 83, 83, 36, -36, -83, -83, -36, 36, 83, 83, 36, -36, -83, -83, -36, 36, 83, 83, 36, -36, -83, -83, -36, 36, 83],
    [82, 22, -54, -90, -61, 13, 78, 85, 31, -46, -90, -67, 4, 73, 88, 38, -38, -88, -73, -4, 67, 90, 46, -31, -85, -78, -13, 61, 90, 54, -22, -82],
    [80, 9, -70, -87, -25, 57, 90, 43, -43, -90, -57, 25, 87, 70, -9, -80, -80, -9, 70, 87, 25, -57, -90, -43, 43, 90, 57, -25, -87, -70, 9, 80],
    [78, -4, -82, -73, 13, 85, 67, -22, -88, -61, 31, 90, 54, -38, -90, -46, 46, 90, 38, -54, -90, -31, 61, 88, 22, -67, -85, -13, 73, 82, 4, -78],
    [75, -18, -89, -50, 50, 89, 18, -75, -75, 18, 89, 50, -50, -89, -18, 75, 75, -18, -89, -50, 50, 89, 18, -75, -75, 18, 89, 50, -50, -89, -18, 75],
    [73, -31, -90, -22, 78, 67, -38, -90, -13, 82, 61, -46, -88, -4, 85, 54, -54, -85, 4, 88, 46, -61, -82, 13, 90, 38, -67, -78, 22, 90, 31, -73],
    [70, -43, -87, 9, 90, 25, -80, -57, 57, 80, -25, -90, -9, 87, 43, -70, -70, 43, 87, -9, -90, -25, 80, 57, -57, -80, 25, 90, 9, -87, -43, 70],
    [67, -54, -78, 38, 85, -22, -90, 4, 90, 13, -88, -31, 82, 46, -73, -61, 61, 73, -46, -82, 31, 88, -13, -90, -4, 90, 22, -85, -38, 78, 54, -67],
    [64, -64, -64, 64, 64, -64, -64, 64, 64, -64, -64, 64, 64, -64, -64, 64, 64, -64, -64, 64, 64, -64, -64, 64, 64, -64, -64, 64, 64, -64, -64, 64],
    [61, -73, -46, 82, 31, -88, -13, 90, -4, -90, 22, 85, -38, -78, 54, 67, -67, -54, 78, 38, -85, -22, 90, 4, -90, 13, 88, -31, -82, 46, 73, -61],
    [57, -80, -25, 90, -9, -87, 43, 70, -70, -43, 87, 9, -90, 25, 80, -57, -57, 80, 25, -90, 9, 87, -43, -70, 70, 43, -87, -9, 90, -25, -80, 57],
    [54, -85, -4, 88, -46, -61, 82, 13, -90, 38, 67, -78, -22, 90, -31, -73, 73, 31, -90, 22, 78, -67, -38, 90, -13, -82, 61, 46, -88, 4, 85, -54],
    [50, -89, 18, 75, -75, -18, 89, -50, -50, 89, -18, -75, 75, 18, -89, 50, 50, -89, 18, 75, -75, -18, 89, -50, -50, 89, -18, -75, 75, 18, -89, 50],
    [46, -90, 38, 54, -90, 31, 61, -88, 22, 67, -85, 13, 73, -82, 4, 78, -78, -4, 82, -73, -13, 85, -67, -22, 88, -61, -31, 90, -54, -38, 90, -46],
    [43, -90, 57, 25, -87, 70, 9, -80, 80, -9, -70, 87, -25, -57, 90, -43, -43, 90, -57, -25, 87, -70, -9, 80, -80, 9, 70, -87, 25, 57, -90, 43],
    [38, -88, 73, -4, -67, 90, -46, -31, 85, -78, 13, 61, -90, 54, 22, -82, 82, -22, -54, 90, -61, -13, 78, -85, 31, 46, -90, 67, 4, -73, 88, -38],
    [36, -83, 83, -36, -36, 83, -83, 36, 36, -83, 83, -36, -36, 83, -83, 36, 36, -83, 83, -36, -36, 83, -83, 36, 36, -83, 83, -36, -36, 83, -83, 36],
    [31, -78, 90, -61, 4, 54, -88, 82, -38, -22, 73, -90, 67, -13, -46, 85, -85, 46, 13, -67, 90, -73, 22, 38, -82, 88, -54, -4, 61, -90, 78, -31],
    [25, -70, 90, -80, 43, 9, -57, 87, -87, 57, -9, -43, 80, -90, 70, -25, -25, 70, -90, 80, -43, -9, 57, -87, 87, -57, 9, 43, -80, 90, -70, 25],
    [22, -61, 85, -90, 73, -38, -4, 46, -78, 90, -82, 54, -13, -31, 67, -88, 88, -67, 31, 13, -54, 82, -90, 78, -46, 4, 38, -73, 90, -85, 61, -22],
    [18, -50, 75, -89, 89, -75, 50, -18, -18, 50, -75, 89, -89, 75, -50, 18, 18, -50, 75, -89, 89, -75, 50, -18, -18, 50, -75, 89, -89, 75, -50, 18],
    [13, -38, 61, -78, 88, -90, 85, -73, 54, -31, 4, 22, -46, 67, -82, 90, -90, 82, -67, 46, -22, -4, 31, -54, 73, -85, 90, -88, 78, -61, 38, -13],
    [9, -25, 43, -57, 70, -80, 87, -90, 90, -87, 80, -70, 57, -43, 25, -9, -9, 25, -43, 57, -70, 80, -87, 90, -90, 87, -80, 70, -57, 43, -25, 9],
    [4, -13, 22, -31, 38, -46, 54, -61, 67, -73, 78, -82, 85, -88, 90, -90, 90, -90, 88, -85, 82, -78, 73, -67, 61, -54, 46, -38, 31, -22, 13, -4],
];

/// Left half (columns 0 to 31) of the first 32 rows of the 64-point DCT-II core
/// matrix. A 64-point transform keeps only the 32 lowest-frequency
/// coefficients, so only these rows are used; the right half follows from the
/// DCT-II symmetry `T[k][63 - i] = (-1)^k · T[k][i]`.
pub const T64_HALF: [[i8; 32]; 32] = [
    [64, 64, 64, 64, 64, 64, 64, 64, 64, 64, 64, 64, 64, 64, 64, 64, 64, 64, 64, 64, 64, 64, 64, 64, 64, 64, 64, 64, 64, 64, 64, 64],
    [91, 90, 90, 90, 88, 87, 86, 84, 83, 81, 79, 77, 73, 71, 69, 65, 62, 59, 56, 52, 48, 44, 41, 37, 33, 28, 24, 20, 15, 11, 7, 2],
    [90, 90, 88, 85, 82, 78, 73, 67, 61, 54, 46, 38, 31, 22, 13, 4, -4, -13, -22, -31, -38, -46, -54, -61, -67, -73, -78, -82, -85, -88, -90, -90],
    [90, 88, 84, 79, 71, 62, 52, 41, 28, 15, 2, -11, -24, -37, -48, -59, -69, -77, -83, -87, -90, -91, -90, -86, -81, -73, -65, -56, -44, -33, -20, -7],
    [90, 87, 80, 70, 57, 43, 25, 9, -9, -25, -43, -57, -70, -80, -87, -90, -90, -87, -80, -70, -57, -43, -25, -9, 9, 25, 43, 57, 70, 80, 87, 90],
    [90, 84, 73, 59, 41, 20, -2, -24, -44, -62, -77, -86, -90, -90, -83, -71, -56, -37, -15, 7, 28, 48, 65, 79, 87, 91, 88, 81, 69, 52, 33, 11],
    [90, 82, 67, 46, 22, -4, -31, -54, -73, -85, -90, -88, -78, -61, -38, -13, 13, 38, 61, 78, 88, 90, 85, 73, 54, 31, 4, -22, -46, -67, -82, -90],
    [90, 79, 59, 33, 2, -28, -56, -77, -88, -90, -81, -62, -37, -7, 24, 52, 73, 87, 90, 83, 65, 41, 11, -20, -48, -71, -86, -91, -84, -69, -44, -15],
    [89, 75, 50, 18, -18, -50, -75, -89, -89, -75, -50, -18, 18, 50, 75, 89, 89, 75, 50, 18, -18, -50, -75, -89, -89, -75, -50, -18, 18, 50, 75, 89],
    [88, 71, 41, 2, -37, -69, -87, -90, -73, -44, -7, 33, 65, 86, 90, 77, 48, 11, -28, -62, -84, -90, -79, -52, -15, 24, 59, 83, 91, 81, 56, 20],
    [88, 67, 31, -13, -54, -82, -90, -78, -46, -4, 38, 73, 90, 85, 61, 22, -22, -61, -85, -90, -73, -38, 4, 46, 78, 90, 82, 54, 13, -31, -67, -88],
    [87, 62, 20, -28, -69, -90, -84, -56, -11, 37, 73, 90, 81, 48, 2, -44, -79, -91, -77, -41, 7, 52, 83, 90, 71, 33, -15, -59, -86, -88, -65, -24],
    [87, 57, 9, -43, -80, -90, -70, -25, 25, 70, 90, 80, 43, -9, -57, -87, -87, -57, -9, 43, 80, 90, 70, 25, -25, -70, -90, -80, -43, 9, 57, 87],
    [86, 52, -2, -56, -87, -84, -48, 7, 59, 88, 83, 44, -11, -62, -90, -81, -41, 15, 65, 90, 79, 37, -20, -69, -90, -77, -33, 24, 71, 91, 73, 28],
    [85, 46, -13, -67, -90, -73, -22, 38, 82, 88, 54, -4, -61, -90, -78, -31, 31, 78, 90, 61, 4, -54, -88, -82, -38, 22, 73, 90, 67, 13, -46, -85],
    [84, 41, -24, -77, -90, -56, 7, 65, 91, 69, 11, -52, -88, -79, -28, 37, 83, 86, 44, -20, -73, -90, -59, 2, 62, 90, 71, 15, -48, -87, -81, -33],
    [83, 36, -36, -83, -83, -36, 36, 83, 83, 36, -36, -83, -83, -36, 36, 83, 83, 36, -36, -83, -83, -36, 36, 83, 83, 36, -36, -83, -83, -36, 36, 83],
    [83, 28, -44, -88, -73, -11, 59, 91, 62, -7, -71, -90, -48, 24, 81, 84, 33, -41, -87, -77, -15, 56, 90, 65, -2, -69, -90, -52, 20, 79, 86, 37],
    [82, 22, -54, -90, -61, 13, 78, 85, 31, -46, -90, -67, 4, 73, 88, 38, -38, -88, -73, -4, 67, 90, 46, -31, -85, -78, -13, 61, 90, 54, -22, -82],
    [81, 15, -62, -90, -44, 37, 88, 69, -7, -77, -84, -24, 56, 91, 52, -28, -86, -73, -2, 71, 87, 33, -48, -90, -59, 20, 83, 79, 11, -65, -90, -41],
    [80, 9, -70, -87, -25, 57, 90, 43, -43, -90, -57, 25, 87, 70, -9, -80, -80, -9, 70, 87, 25, -57, -90, -43, 43, 90, 57, -25, -87, -70, 9, 80],
    [79, 2, -77, -81, -7, 73, 83, 11, -71, -84, -15, 69, 86, 20, -65, -87, -24, 62, 88, 28, -59, -90, -33, 56, 90, 37, -52, -90, -41, 48, 91, 44],
    [78, -4, -82, -73, 13, 85, 67, -22, -88, -61, 31, 90, 54, -38, -90, -46, 46, 90, 38, -54, -90, -31, 61, 88, 22, -67, -85, -13, 73, 82, 4, -78],
    [77, -11, -86, -62, 33, 90, 44, -52, -90, -24, 69, 83, 2, -81, -71, 20, 88, 56, -41, -91, -37, 59, 87, 15, -73, -79, 7, 84, 65, -28, -90, -48],
    [75, -18, -89, -50, 50, 89, 18, -75, -75, 18, 89, 50, -50, -89, -18, 75, 75, -18, -89, -50, 50, 89, 18, -75, -75, 18, 89, 50, -50, -89, -18, 75],
    [73, -24, -90, -37, 65, 81, -11, -88, -48, 56, 86, 2, -84, -59, 44, 90, 15, -79, -69, 33, 91, 28, -71, -77, 20, 90, 41, -62, -83, 7, 87, 52],
    [73, -31, -90, -22, 78, 67, -38, -90, -13, 82, 61, -46, -88, -4, 85, 54, -54, -85, 4, 88, 46, -61, -82, 13, 90, 38, -67, -78, 22, 90, 31, -73],
    [71, -37, -90, -7, 86, 48, -62, -79, 24, 91, 20, -81, -59, 52, 84, -11, -90, -33, 73, 69, -41, -88, -2, 87, 44, -65, -77, 28, 90, 15, -83, -56],
    [70, -43, -87, 9, 90, 25, -80, -57, 57, 80, -25, -90, -9, 87, 43, -70, -70, 43, 87, -9, -90, -25, 80, 57, -57, -80, 25, 90, 9, -87, -43, 70],
    [69, -48, -83, 24, 90, 2, -90, -28, 81, 52, -65, -71, 44, 84, -20, -90, -7, 88, 33, -79, -56, 62, 73, -41, -86, 15, 91, 11, -87, -37, 77, 59],
    [67, -54, -78, 38, 85, -22, -90, 4, 90, 13, -88, -31, 82, 46, -73, -61, 61, 73, -46, -82, 31, 88, -13, -90, -4, 90, 22, -85, -38, 78, 54, -67],
    [65, -59, -71, 52, 77, -44, -81, 37, 84, -28, -87, 20, 90, -11, -90, 2, 91, 7, -90, -15, 88, 24, -86, -33, 83, 41, -79, -48, 73, 56, -69, -62],
];

/// 4-point DST-VII core matrix.
pub const DST74: [[i8; 4]; 4] = [
    [29, 55, 74, 84],
    [74, 74, 0, -74],
    [84, -29, -74, 55],
    [55, -84, 74, -29],
];

/// 8-point DST-VII core matrix.
pub const DST78: [[i8; 8]; 8] = [
    [17, 32, 46, 60, 71, 78, 85, 86],
    [46, 78, 86, 71, 32, -17, -60, -85],
    [71, 85, 32, -46, -86, -60, 17, 78],
    [85, 46, -60, -78, 17, 86, 32, -71],
    [86, -17, -85, 32, 78, -46, -71, 60],
    [78, -71, -17, 85, -60, -32, 86, -46],
    [60, -86, 71, -17, -46, 85, -78, 32],
    [32, -60, 78, -86, 85, -71, 46, -17],
];

/// 16-point DST-VII core matrix.
pub const DST716: [[i8; 16]; 16] = [
    [8, 17, 25, 33, 40, 48, 55, 62, 68, 73, 77, 81, 85, 87, 88, 88],
    [25, 48, 68, 81, 88, 88, 81, 68, 48, 25, 0, -25, -48, -68, -81, -88],
    [40, 73, 88, 85, 62, 25, -17, -55, -81, -88, -77, -48, -8, 33, 68, 87],
    [55, 87, 81, 40, -17, -68, -88, -73, -25, 33, 77, 88, 62, 8, -48, -85],
    [68, 88, 48, -25, -81, -81, -25, 48, 88, 68, 0, -68, -88, -48, 25, 81],
    [77, 77, 0, -77, -77, 0, 77, 77, 0, -77, -77, 0, 77, 77, 0, -77],
    [85, 55, -48, -87, -8, 81, 62, -40, -88, -17, 77, 68, -33, -88, -25, 73],
    [88, 25, -81, -48, 68, 68, -48, -81, 25, 88, 0, -88, -25, 81, 48, -68],
    [88, -8, -88, 17, 87, -25, -85, 33, 81, -40, -77, 48, 73, -55, -68, 62],
    [87, -40, -68, 73, 33, -88, 8, 85, -48, -62, 77, 25, -88, 17, 81, -55],
    [81, -68, -25, 88, -48, -48, 88, -25, -68, 81, 0, -81, 68, 25, -88, 48],
    [73, -85, 25, 55, -88, 48, 33, -87, 68, 8, -77, 81, -17, -62, 88, -40],
    [62, -88, 68, -8, -55, 88, -73, 17, 48, -87, 77, -25, -40, 85, -81, 33],
    [48, -81, 88, -68, 25, 25, -68, 88, -81, 48, 0, -48, 81, -88, 68, -25],
    [33, -62, 81, -88, 85, -68, 40, -8, -25, 55, -77, 88, -87, 73, -48, 17],
    [17, -33, 48, -62, 73, -81, 87, -88, 88, -85, 77, -68, 55, -40, 25, -8],
];

/// 32-point DST-VII core matrix.
pub const DST732: [[i8; 32]; 32] = [
    [4, 9, 13, 17, 21, 26, 30, 34, 38, 42, 46, 50, 53, 56, 60, 63, 66, 68, 72, 74, 77, 78, 80, 82, 84, 85, 86, 87, 88, 89, 90, 90],
    [13, 26, 38, 50, 60, 68, 77, 82, 86, 89, 90, 88, 85, 80, 74, 66, 56, 46, 34, 21, 9, -4, -17, -30, -42, -53, -63, -72, -78, -84, -87, -90],
    [21, 42, 60, 74, 84, 89, 89, 84, 74, 60, 42, 21, 0, -21, -42, -60, -74, -84, -89, -89, -84, -74, -60, -42, -21, 0, 21, 42, 60, 74, 84, 89],
    [30, 56, 77, 87, 89, 80, 63, 38, 9, -21, -50, -72, -85, -90, -84, -68, -46, -17, 13, 42, 66, 82, 90, 86, 74, 53, 26, -4, -34, -60, -78, -88],
    [38, 68, 86, 88, 74, 46, 9, -30, -63, -84, -90, -78, -53, -17, 21, 56, 80, 90, 82, 60, 26, -13, -50, -77, -89, -85, -66, -34, 4, 42, 72, 87],
    [46, 78, 90, 77, 42, -4, -50, -80, -90, -74, -38, 9, 53, 82, 89, 72, 34, -13, -56, -84, -88, -68, -30, 17, 60, 85, 87, 66, 26, -21, -63, -86],
    [53, 85, 85, 53, 0, -53, -85, -85, -53, 0, 53, 85, 85, 53, 0, -53, -85, -85, -53, 0, 53, 85, 85, 53, 0, -53, -85, -85, -53, 0, 53, 85],
    [60, 89, 74, 21, -42, -84, -84, -42, 21, 74, 89, 60, 0, -60, -89, -74, -21, 42, 84, 84, 42, -21, -74, -89, -60, 0, 60, 89, 74, 21, -42, -84],
    [66, 90, 56, -13, -74, -87, -46, 26, 80, 84, 34, -38, -85, -78, -21, 50, 88, 72, 9, -60, -90, -63, 4, 68, 89, 53, -17, -77, -86, -42, 30, 82],
    [72, 86, 34, -46, -89, -63, 13, 78, 82, 21, -56, -90, -53, 26, 84, 77, 9, -66, -88, -42, 38, 87, 68, -4, -74, -85, -30, 50, 90, 60, -17, -80],
    [77, 80, 9, -72, -84, -17, 66, 86, 26, -60, -88, -34, 53, 90, 42, -46, -90, -50, 38, 89, 56, -30, -87, -63, 21, 85, 68, -13, -82, -74, 4, 78],
    [80, 72, -17, -86, -60, 34, 90, 46, -50, -89, -30, 63, 85, 13, -74, -78, 4, 82, 68, -21, -87, -56, 38, 90, 42, -53, -88, -26, 66, 84, 9, -77],
    [84, 60, -42, -89, -21, 74, 74, -21, -89, -42, 60, 84, 0, -84, -60, 42, 89, 21, -74, -74, 21, 89, 42, -60, -84, 0, 84, 60, -42, -89, -21, 74],
    [86, 46, -63, -78, 21, 90, 26, -77, -66, 42, 87, 4, -85, -50, 60, 80, -17, -90, -30, 74, 68, -38, -88, -9, 84, 53, -56, -82, 13, 89, 34, -72],
    [88, 30, -78, -56, 60, 77, -34, -87, 4, 89, 26, -80, -53, 63, 74, -38, -86, 9, 90, 21, -82, -50, 66, 72, -42, -85, 13, 90, 17, -84, -46, 68],
    [90, 13, -87, -26, 84, 38, -78, -50, 72, 60, -63, -68, 53, 77, -42, -82, 30, 86, -17, -89, 4, 90, 9, -88, -21, 85, 34, -80, -46, 74, 56, -66],
    [90, -4, -90, 9, 89, -13, -88, 17, 87, -21, -86, 26, 85, -30, -84, 34, 82, -38, -80, 42, 78, -46, -77, 50, 74, -53, -72, 56, 68, -60, -66, 63],
    [89, -21, -84, 42, 74, -60, -60, 74, 42, -84, -21, 89, 0, -89, 21, 84, -42, -74, 60, 60, -74, -42, 84, 21, -89, 0, 89, -21, -84, 42, 74, -60],
    [87, -38, -72, 68, 42, -86, -4, 88, -34, -74, 66, 46, -85, -9, 89, -30, -77, 63, 50, -84, -13, 90, -26, -78, 60, 53, -82, -17, 90, -21, -80, 56],
    [85, -53, -53, 85, 0, -85, 53, 53, -85, 0, 85, -53, -53, 85, 0, -85, 53, 53, -85, 0, 85, -53, -53, 85, 0, -85, 53, 53, -85, 0, 85, -53],
    [82, -66, -30, 90, -42, -56, 86, -13, -77, 74, 17, -87, 53, 46, -89, 26, 68, -80, -4, 84, -63, -34, 90, -38, -60, 85, -9, -78, 72, 21, -88, 50],
    [78, -77, -4, 80, -74, -9, 82, -72, -13, 84, -68, -17, 85, -66, -21, 86, -63, -26, 87, -60, -30, 88, -56, -34, 89, -53, -38, 90, -50, -42, 90, -46],
    [74, -84, 21, 60, -89, 42, 42, -89, 60, 21, -84, 74, 0, -74, 84, -21, -60, 89, -42, -42, 89, -60, -21, 84, -74, 0, 74, -84, 21, 60, -89, 42],
    [68, -88, 46, 30, -84, 78, -17, -56, 90, -60, -13, 77, -85, 34, 42, -87, 72, -4, -66, 89, -50, -26, 82, -80, 21, 53, -90, 63, 9, -74, 86, -38],
    [63, -90, 66, -4, -60, 90, -68, 9, 56, -89, 72, -13, -53, 88, -74, 17, 50, -87, 77, -21, -46, 86, -78, 26, 42, -85, 80, -30, -38, 84, -82, 34],
    [56, -87, 80, -38, -21, 72, -90, 68, -17, -42, 82, -86, 53, 4, -60, 88, -78, 34, 26, -74, 90, -66, 13, 46, -84, 85, -50, -9, 63, -89, 77, -30],
    [50, -82, 88, -66, 21, 30, -72, 90, -78, 42, 9, -56, 85, -86, 60, -13, -38, 77, -90, 74, -34, -17, 63, -87, 84, -53, 4, 46, -80, 89, -68, 26],
    [42, -74, 89, -84, 60, -21, -21, 60, -84, 89, -74, 42, 0, -42, 74, -89, 84, -60, 21, 21, -60, 84, -89, 74, -42, 0, 42, -74, 89, -84, 60, -21],
    [34, -63, 82, -90, 84, -66, 38, -4, -30, 60, -80, 90, -85, 68, -42, 9, 26, -56, 78, -89, 86, -72, 46, -13, -21, 53, -77, 88, -87, 74, -50, 17],
    [26, -50, 68, -82, 89, -88, 80, -66, 46, -21, -4, 30, -53, 72, -84, 90, -87, 78, -63, 42, -17, -9, 34, -56, 74, -85, 90, -86, 77, -60, 38, -13],
    [17, -34, 50, -63, 74, -82, 87, -90, 88, -84, 77, -66, 53, -38, 21, -4, -13, 30, -46, 60, -72, 80, -86, 90, -89, 85, -78, 68, -56, 42, -26, 9],
    [9, -17, 26, -34, 42, -50, 56, -63, 68, -74, 78, -82, 85, -87, 89, -90, 90, -88, 86, -84, 80, -77, 72, -66, 60, -53, 46, -38, 30, -21, 13, -4],
];

/// 4-point DCT-VIII core matrix.
pub const DCT84: [[i8; 4]; 4] = [
    [84, 74, 55, 29],
    [74, 0, -74, -74],
    [55, -74, -29, 84],
    [29, -74, 84, -55],
];

/// 8-point DCT-VIII core matrix.
pub const DCT88: [[i8; 8]; 8] = [
    [86, 85, 78, 71, 60, 46, 32, 17],
    [85, 60, 17, -32, -71, -86, -78, -46],
    [78, 17, -60, -86, -46, 32, 85, 71],
    [71, -32, -86, -17, 78, 60, -46, -85],
    [60, -71, -46, 78, 32, -85, -17, 86],
    [46, -86, 32, 60, -85, 17, 71, -78],
    [32, -78, 85, -46, -17, 71, -86, 60],
    [17, -46, 71, -85, 86, -78, 60, -32],
];

/// 16-point DCT-VIII core matrix.
pub const DCT816: [[i8; 16]; 16] = [
    [88, 88, 87, 85, 81, 77, 73, 68, 62, 55, 48, 40, 33, 25, 17, 8],
    [88, 81, 68, 48, 25, 0, -25, -48, -68, -81, -88, -88, -81, -68, -48, -25],
    [87, 68, 33, -8, -48, -77, -88, -81, -55, -17, 25, 62, 85, 88, 73, 40],
    [85, 48, -8, -62, -88, -77, -33, 25, 73, 88, 68, 17, -40, -81, -87, -55],
    [81, 25, -48, -88, -68, 0, 68, 88, 48, -25, -81, -81, -25, 48, 88, 68],
    [77, 0, -77, -77, 0, 77, 77, 0, -77, -77, 0, 77, 77, 0, -77, -77],
    [73, -25, -88, -33, 68, 77, -17, -88, -40, 62, 81, -8, -87, -48, 55, 85],
    [68, -48, -81, 25, 88, 0, -88, -25, 81, 48, -68, -68, 48, 81, -25, -88],
    [62, -68, -55, 73, 48, -77, -40, 81, 33, -85, -25, 87, 17, -88, -8, 88],
    [55, -81, -17, 88, -25, -77, 62, 48, -85, -8, 88, -33, -73, 68, 40, -87],
    [48, -88, 25, 68, -81, 0, 81, -68, -25, 88, -48, -48, 88, -25, -68, 81],
    [40, -88, 62, 17, -81, 77, -8, -68, 87, -33, -48, 88, -55, -25, 85, -73],
    [33, -81, 85, -40, -25, 77, -87, 48, 17, -73, 88, -55, -8, 68, -88, 62],
    [25, -68, 88, -81, 48, 0, -48, 81, -88, 68, -25, -25, 68, -88, 81, -48],
    [17, -48, 73, -87, 88, -77, 55, -25, -8, 40, -68, 85, -88, 81, -62, 33],
    [8, -25, 40, -55, 68, -77, 85, -88, 88, -87, 81, -73, 62, -48, 33, -17],
];

/// 32-point DCT-VIII core matrix.
pub const DCT832: [[i8; 32]; 32] = [
    [90, 90, 89, 88, 87, 86, 85, 84, 82, 80, 78, 77, 74, 72, 68, 66, 63, 60, 56, 53, 50, 46, 42, 38, 34, 30, 26, 21, 17, 13, 9, 4],
    [90, 87, 84, 78, 72, 63, 53, 42, 30, 17, 4, -9, -21, -34, -46, -56, -66, -74, -80, -85, -88, -90, -89, -86, -82, -77, -68, -60, -50, -38, -26, -13],
    [89, 84, 74, 60, 42, 21, 0, -21, -42, -60, -74, -84, -89, -89, -84, -74, -60, -42, -21, 0, 21, 42, 60, 74, 84, 89, 89, 84, 74, 60, 42, 21],
    [88, 78, 60, 34, 4, -26, -53, -74, -86, -90, -82, -66, -42, -13, 17, 46, 68, 84, 90, 85, 72, 50, 21, -9, -38, -63, -80, -89, -87, -77, -56, -30],
    [87, 72, 42, 4, -34, -66, -85, -89, -77, -50, -13, 26, 60, 82, 90, 80, 56, 21, -17, -53, -78, -90, -84, -63, -30, 9, 46, 74, 88, 86, 68, 38],
    [86, 63, 21, -26, -66, -87, -85, -60, -17, 30, 68, 88, 84, 56, 13, -34, -72, -89, -82, -53, -9, 38, 74, 90, 80, 50, 4, -42, -77, -90, -78, -46],
    [85, 53, 0, -53, -85, -85, -53, 0, 53, 85, 85, 53, 0, -53, -85, -85, -53, 0, 53, 85, 85, 53, 0, -53, -85, -85, -53, 0, 53, 85, 85, 53],
    [84, 42, -21, -74, -89, -60, 0, 60, 89, 74, 21, -42, -84, -84, -42, 21, 74, 89, 60, 0, -60, -89, -74, -21, 42, 84, 84, 42, -21, -74, -89, -60],
    [82, 30, -42, -86, -77, -17, 53, 89, 68, 4, -63, -90, -60, 9, 72, 88, 50, -21, -78, -85, -38, 34, 84, 80, 26, -46, -87, -74, -13, 56, 90, 66],
    [80, 17, -60, -90, -50, 30, 85, 74, 4, -68, -87, -38, 42, 88, 66, -9, -77, -84, -26, 53, 90, 56, -21, -82, -78, -13, 63, 89, 46, -34, -86, -72],
    [78, 4, -74, -82, -13, 68, 85, 21, -63, -87, -30, 56, 89, 38, -50, -90, -46, 42, 90, 53, -34, -88, -60, 26, 86, 66, -17, -84, -72, 9, 80, 77],
    [77, -9, -84, -66, 26, 88, 53, -42, -90, -38, 56, 87, 21, -68, -82, -4, 78, 74, -13, -85, -63, 30, 89, 50, -46, -90, -34, 60, 86, 17, -72, -80],
    [74, -21, -89, -42, 60, 84, 0, -84, -60, 42, 89, 21, -74, -74, 21, 89, 42, -60, -84, 0, 84, 60, -42, -89, -21, 74, 74, -21, -89, -42, 60, 84],
    [72, -34, -89, -13, 82, 56, -53, -84, 9, 88, 38, -68, -74, 30, 90, 17, -80, -60, 50, 85, -4, -87, -42, 66, 77, -26, -90, -21, 78, 63, -46, -86],
    [68, -46, -84, 17, 90, 13, -85, -42, 72, 66, -50, -82, 21, 90, 9, -86, -38, 74, 63, -53, -80, 26, 89, 4, -87, -34, 77, 60, -56, -78, 30, 88],
    [66, -56, -74, 46, 80, -34, -85, 21, 88, -9, -90, -4, 89, 17, -86, -30, 82, 42, -77, -53, 68, 63, -60, -72, 50, 78, -38, -84, 26, 87, -13, -90],
    [63, -66, -60, 68, 56, -72, -53, 74, 50, -77, -46, 78, 42, -80, -38, 82, 34, -84, -30, 85, 26, -86, -21, 87, 17, -88, -13, 89, 9, -90, -4, 90],
    [60, -74, -42, 84, 21, -89, 0, 89, -21, -84, 42, 74, -60, -60, 74, 42, -84, -21, 89, 0, -89, 21, 84, -42, -74, 60, 60, -74, -42, 84, 21, -89],
    [56, -80, -21, 90, -17, -82, 53, 60, -78, -26, 90, -13, -84, 50, 63, -77, -30, 89, -9, -85, 46, 66, -74, -34, 88, -4, -86, 42, 68, -72, -38, 87],
    [53, -85, 0, 85, -53, -53, 85, 0, -85, 53, 53, -85, 0, 85, -53, -53, 85, 0, -85, 53, 53, -85, 0, 85, -53, -53, 85, 0, -85, 53, 53, -85],
    [50, -88, 21, 72, -78, -9, 85, -60, -38, 90, -34, -63, 84, -4, -80, 68, 26, -89, 46, 53, -87, 17, 74, -77, -13, 86, -56, -42, 90, -30, -66, 82],
    [46, -90, 42, 50, -90, 38, 53, -89, 34, 56, -88, 30, 60, -87, 26, 63, -86, 21, 66, -85, 17, 68, -84, 13, 72, -82, 9, 74, -80, 4, 77, -78],
    [42, -89, 60, 21, -84, 74, 0, -74, 84, -21, -60, 89, -42, -42, 89, -60, -21, 84, -74, 0, 74, -84, 21, 60, -89, 42, 42, -89, 60, 21, -84, 74],
    [38, -86, 74, -9, -63, 90, -53, -21, 80, -82, 26, 50, -89, 66, 4, -72, 87, -42, -34, 85, -77, 13, 60, -90, 56, 17, -78, 84, -30, -46, 88, -68],
    [34, -82, 84, -38, -30, 80, -85, 42, 26, -78, 86, -46, -21, 77, -87, 50, 17, -74, 88, -53, -13, 72, -89, 56, 9, -68, 90, -60, -4, 66, -90, 63],
    [30, -77, 89, -63, 9, 50, -85, 84, -46, -13, 66, -90, 74, -26, -34, 78, -88, 60, -4, -53, 86, -82, 42, 17, -68, 90, -72, 21, 38, -80, 87, -56],
    [26, -68, 89, -80, 46, 4, -53, 84, -87, 63, -17, -34, 74, -90, 77, -38, -13, 60, -86, 85, -56, 9, 42, -78, 90, -72, 30, 21, -66, 88, -82, 50],
    [21, -60, 84, -89, 74, -42, 0, 42, -74, 89, -84, 60, -21, -21, 60, -84, 89, -74, 42, 0, -42, 74, -89, 84, -60, 21, 21, -60, 84, -89, 74, -42],
    [17, -50, 74, -87, 88, -77, 53, -21, -13, 46, -72, 86, -89, 78, -56, 26, 9, -42, 68, -85, 90, -80, 60, -30, -4, 38, -66, 84, -90, 82, -63, 34],
    [13, -38, 60, -77, 86, -90, 85, -74, 56, -34, 9, 17, -42, 63, -78, 87, -90, 84, -72, 53, -30, 4, 21, -46, 66, -80, 88, -89, 82, -68, 50, -26],
    [9, -26, 42, -56, 68, -78, 85, -89, 90, -86, 80, -72, 60, -46, 30, -13, -4, 21, -38, 53, -66, 77, -84, 88, -90, 87, -82, 74, -63, 50, -34, 17],
    [4, -13, 21, -30, 38, -46, 53, -60, 66, -72, 77, -80, 84, -86, 88, -90, 90, -89, 87, -85, 82, -78, 74, -68, 63, -56, 50, -42, 34, -26, 17, -9],
];

/// Row `k` of the 4-point DCT-II is even about its middle for even `k`
/// and odd for odd `k`.
pub proof fn lemma_t4_symmetry()
    ensures
        forall|k: int, i: int|
            0 <= k < 4 && 0 <= i < 4 ==> #[trigger] T4[k][3 - i] as int == if k % 2 == 0 {
                T4[k][i] as int
            } else {
                -(T4[k][i] as int)
            },
{
    assert forall|k: int, i: int| 0 <= k < 4 && 0 <= i < 4 implies #[trigger] T4[k][3 - i] as int == if k % 2 == 0 {
        T4[k][i] as int
    } else {
        -(T4[k][i] as int)
    } by {
        if k == 0 {} else if k == 1 {} else if k == 2 {} else if k == 3 {}
    }
}

/// Row `k` of the 8-point DCT-II is even about its middle for even `k`
/// and odd for odd `k`.
pub proof fn lemma_t8_symmetry()
    ensures
        forall|k: int, i: int|
            0 <= k < 8 && 0 <= i < 8 ==> #[trigger] T8[k][7 - i] as int == if k % 2 == 0 {
                T8[k][i] as int
            } else {
                -(T8[k][i] as int)
            },
{
    assert forall|k: int, i: int| 0 <= k < 8 && 0 <= i < 8 implies #[trigger] T8[k][7 - i] as int == if k % 2 == 0 {
        T8[k][i] as int
    } else {
        -(T8[k][i] as int)
    } by {
        if k == 0 {} else if k == 1 {} else if k == 2 {} else if k == 3 {}
        else if k == 4 {} else if k == 5 {} else if k == 6 {} else if k == 7 {}
    }
}

/// Row `k` of the 16-point DCT-II is even about its middle for even `k`
/// and odd for odd `k`.
pub proof fn lemma_t16_symmetry()
    ensures
        forall|k: int, i: int|
            0 <= k < 16 && 0 <= i < 16 ==> #[trigger] T16[k][15 - i] as int == if k % 2 == 0 {
                T16[k][i] as int
            } else {
                -(T16[k][i] as int)
            },
{
    assert forall|k: int, i: int| 0 <= k < 16 && 0 <= i < 16 implies #[trigger] T16[k][15 - i] as int == if k % 2 == 0 {
        T16[k][i] as int
    } else {
        -(T16[k][i] as int)
    } by {
        if k == 0 {} else if k == 1 {} else if k == 2 {} else if k == 3 {}
        else if k == 4 {} else if k == 5 {} else if k == 6 {} else if k == 7 {}
        else if k == 8 {} else if k == 9 {} else if k == 10 {} else if k == 11 {}
        else if k == 12 {} else if k == 13 {} else if k == 14 {} else if k == 15 {}
    }
}

/// Row `k` of the 32-point DCT-II is even about its middle for even `k`
/// and odd for odd `k`.
pub proof fn lemma_t32_symmetry()
    ensures
        forall|k: int, i: int|
            0 <= k < 32 && 0 <= i < 32 ==> #[trigger] T32[k][31 - i] as int == if k % 2 == 0 {
                T32[k][i] as int
            } else {
                -(T32[k][i] as int)
            },
{
    assert forall|k: int, i: int| 0 <= k < 32 && 0 <= i < 32 implies #[trigger] T32[k][31 - i] as int == if k % 2 == 0 {
        T32[k][i] as int
    } else {
        -(T32[k][i] as int)
    } by {
        if k == 0 {} else if k == 1 {} else if k == 2 {} else if k == 3 {}
        else if k == 4 {} else if k == 5 {} else if k == 6 {} else if k == 7 {}
        else if k == 8 {} else if k == 9 {} else if k == 10 {} else if k == 11 {}
        else if k == 12 {} else if k == 13 {} else if k == 14 {} else if k == 15 {}
        else if k == 16 {} else if k == 17 {} else if k == 18 {} else if k == 19 {}
        else if k == 20 {} else if k == 21 {} else if k == 22 {} else if k == 23 {}
        else if k == 24 {} else if k == 25 {} else if k == 26 {} else if k == 27 {}
        else if k == 28 {} else if k == 29 {} else if k == 30 {} else if k == 31 {}
    }
}

/// The even rows of the 8-point DCT-II begin with the rows of the
/// 4-point one.
pub proof fn lemma_t8_even_rows()
    ensures
        forall|k: int, i: int| 0 <= k < 4 && 0 <= i < 4 ==> #[trigger] T8[2 * k][i] == T4[k][i],
{
    assert forall|k: int, i: int| 0 <= k < 4 && 0 <= i < 4 implies #[trigger] T8[2 * k][i] == T4[k][i] by {
        if k == 0 {} else if k == 1 {} else if k == 2 {} else if k == 3 {}
    }
}

/// The even rows of the 16-point DCT-II begin with the rows of the
/// 8-point one.
pub proof fn lemma_t16_even_rows()
    ensures
        forall|k: int, i: int| 0 <= k < 8 && 0 <= i < 8 ==> #[trigger] T16[2 * k][i] == T8[k][i],
{
    assert forall|k: int, i: int| 0 <= k < 8 && 0 <= i < 8 implies #[trigger] T16[2 * k][i] == T8[k][i] by {
        if k == 0 {} else if k == 1 {} else if k == 2 {} else if k == 3 {}
        else if k == 4 {} else if k == 5 {} else if k == 6 {} else if k == 7 {}
    }
}

/// The even rows of the 32-point DCT-II begin with the rows of the
/// 16-point one.
pub proof fn lemma_t32_even_rows()
    ensures
        forall|k: int, i: int| 0 <= k < 16 && 0 <= i < 16 ==> #[trigger] T32[2 * k][i] == T16[k][i],
{
    assert forall|k: int, i: int| 0 <= k < 16 && 0 <= i < 16 implies #[trigger] T32[2 * k][i] == T16[k][i] by {
        if k == 0 {} else if k == 1 {} else if k == 2 {} else if k == 3 {}
        else if k == 4 {} else if k == 5 {} else if k == 6 {} else if k == 7 {}
        else if k == 8 {} else if k == 9 {} else if k == 10 {} else if k == 11 {}
        else if k == 12 {} else if k == 13 {} else if k == 14 {} else if k == 15 {}
    }
}

/// The even rows of the 64-point DCT-II begin with the rows of the
/// 32-point one.
pub proof fn lemma_t64_half_even_rows()
    ensures
        forall|k: int, i: int| 0 <= k < 16 && 0 <= i < 32 ==> #[trigger] T64_HALF[2 * k][i] == T32[k][i],
{
    assert forall|k: int, i: int| 0 <= k < 16 && 0 <= i < 32 implies #[trigger] T64_HALF[2 * k][i] == T32[k][i] by {
        if k == 0 {} else if k == 1 {} else if k == 2 {} else if k == 3 {}
        else if k == 4 {} else if k == 5 {} else if k == 6 {} else if k == 7 {}
        else if k == 8 {} else if k == 9 {} else if k == 10 {} else if k == 11 {}
        else if k == 12 {} else if k == 13 {} else if k == 14 {} else if k == 15 {}
    }
}

/// The 4-point DCT-VIII is the DST-VII with each row reversed and every
/// odd row negated.
pub proof fn lemma_dct84_from_dst7()
    ensures
        forall|k: int, i: int| 0 <= k < 4 && 0 <= i < 4 ==> #[trigger] DCT84[k][i] as int == if k % 2 == 0 {
            DST74[k][3 - i] as int
        } else {
            -(DST74[k][3 - i] as int)
        },
{
    assert forall|k: int, i: int| 0 <= k < 4 && 0 <= i < 4 implies #[trigger] DCT84[k][i] as int == if k % 2 == 0 {
        DST74[k][3 - i] as int
    } else {
        -(DST74[k][3 - i] as int)
    } by {
        if k == 0 {} else if k == 1 {} else if k == 2 {} else if k == 3 {}
    }
}

/// The 8-point DCT-VIII is the DST-VII with each row reversed and every
/// odd row negated.
pub proof fn lemma_dct88_from_dst7()
    ensures
        forall|k: int, i: int| 0 <= k < 8 && 0 <= i < 8 ==> #[trigger] DCT88[k][i] as int == if k % 2 == 0 {
            DST78[k][7 - i] as int
        } else {
            -(DST78[k][7 - i] as int)
        },
{
    assert forall|k: int, i: int| 0 <= k < 8 && 0 <= i < 8 implies #[trigger] DCT88[k][i] as int == if k % 2 == 0 {
        DST78[k][7 - i] as int
    } else {
        -(DST78[k][7 - i] as int)
    } by {
        if k == 0 {} else if k == 1 {} else if k == 2 {} else if k == 3 {}
        else if k == 4 {} else if k == 5 {} else if k == 6 {} else if k == 7 {}
    }
}

/// The 16-point DCT-VIII is the DST-VII with each row reversed and every
/// odd row negated.
pub proof fn lemma_dct816_from_dst7()
    ensures
        forall|k: int, i: int| 0 <= k < 16 && 0 <= i < 16 ==> #[trigger] DCT816[k][i] as int == if k % 2 == 0 {
            DST716[k][15 - i] as int
        } else {
            -(DST716[k][15 - i] as int)
        },
{
    assert forall|k: int, i: int| 0 <= k < 16 && 0 <= i < 16 implies #[trigger] DCT816[k][i] as int == if k % 2 == 0 {
        DST716[k][15 - i] as int
    } else {
        -(DST716[k][15 - i] as int)
    } by {
        if k == 0 {} else if k == 1 {} else if k == 2 {} else if k == 3 {}
        else if k == 4 {} else if k == 5 {} else if k == 6 {} else if k == 7 {}
        else if k == 8 {} else if k == 9 {} else if k == 10 {} else if k == 11 {}
        else if k == 12 {} else if k == 13 {} else if k == 14 {} else if k == 15 {}
    }
}

/// The 32-point DCT-VIII is the DST-VII with each row reversed and every
/// odd row negated.
pub proof fn lemma_dct832_from_dst7()
    ensures
        forall|k: int, i: int| 0 <= k < 32 && 0 <= i < 32 ==> #[trigger] DCT832[k][i] as int == if k % 2 == 0 {
            DST732[k][31 - i] as int
        } else {
            -(DST732[k][31 - i] as int)
        },
{
    assert forall|k: int, i: int| 0 <= k < 32 && 0 <= i < 32 implies #[trigger] DCT832[k][i] as int == if k % 2 == 0 {
        DST732[k][31 - i] as int
    } else {
        -(DST732[k][31 - i] as int)
    } by {
        if k == 0 {} else if k == 1 {} else if k == 2 {} else if k == 3 {}
        else if k == 4 {} else if k == 5 {} else if k == 6 {} else if k == 7 {}
        else if k == 8 {} else if k == 9 {} else if k == 10 {} else if k == 11 {}
        else if k == 12 {} else if k == 13 {} else if k == 14 {} else if k == 15 {}
        else if k == 16 {} else if k == 17 {} else if k == 18 {} else if k == 19 {}
        else if k == 20 {} else if k == 21 {} else if k == 22 {} else if k == 23 {}
        else if k == 24 {} else if k == 25 {} else if k == 26 {} else if k == 27 {}
        else if k == 28 {} else if k == 29 {} else if k == 30 {} else if k == 31 {}
    }
}

} // verus!
