//! CABAC context-initialisation tables (I-slice initialisation values and
//! adaptation rates) and the per-slice set of context models.
use vstd::prelude::*;
use crate::cabac::engine::{CtxModel, ctx_is_init};

verus! {

/// I-slice initialisation values of the `split_flag` contexts.
pub const SPLIT_FLAG_INIT_I: [u8; 9] = [19, 28, 38, 27, 29, 38, 20, 30, 31];

/// Window sizes (adaptation rates) of the `split_flag` contexts.
pub const SPLIT_FLAG_RATE: [u8; 9] = [12, 13, 8, 8, 13, 12, 5, 9, 9];

/// I-slice initialisation values of the `split_qt_flag` contexts.
pub const SPLIT_QT_FLAG_INIT_I: [u8; 6] = [27, 6, 15, 25, 19, 37];

/// Window sizes (adaptation rates) of the `split_qt_flag` contexts.
pub const SPLIT_QT_FLAG_RATE: [u8; 6] = [0, 8, 8, 12, 12, 8];

/// Selects vertical vs horizontal once an MTT (binary/ternary) split is chosen.
pub const SPLIT_HV_FLAG_INIT_I: [u8; 5] = [43, 42, 29, 27, 44];

/// Window sizes (adaptation rates) of the `mtt_split_vertical` contexts.
pub const SPLIT_HV_FLAG_RATE: [u8; 5] = [9, 8, 9, 8, 5];

/// Selects binary (1:1) vs ternary (1:2:1) for the chosen MTT orientation.
pub const SPLIT_12_FLAG_INIT_I: [u8; 4] = [36, 45, 36, 45];

/// LFNST index (lfnst_idx): I-slice initialisation values.
pub const LFNST_IDX_INIT_I: [u8; 3] = [28, 52, 42];

/// Window sizes (adaptation rates) of the `lfnst_idx` contexts.
pub const LFNST_IDX_RATE: [u8; 3] = [9, 9, 10];

/// I-slice initialisation values of the `mts_idx` contexts.
pub const MTS_IDX_INIT_I: [u8; 4] = [29, 0, 28, 0];

/// Window sizes (adaptation rates) of the `mts_idx` contexts.
pub const MTS_IDX_RATE: [u8; 4] = [8, 0, 9, 0];

/// Window sizes (adaptation rates) of the `mtt_split_binary` contexts.
pub const SPLIT_12_FLAG_RATE: [u8; 4] = [12, 13, 12, 13];

/// I-slice initialisation values of the `intra_mpm_flag` contexts.
pub const INTRA_MPM_FLAG_INIT_I: [u8; 1] = [45];

/// Window sizes (adaptation rates) of the `intra_mpm_flag` contexts.
pub const INTRA_MPM_FLAG_RATE: [u8; 1] = [6];

/// I-slice initialisation values of the `intra_planar_flag` contexts.
pub const INTRA_PLANAR_FLAG_INIT_I: [u8; 2] = [13, 28];

/// Window sizes (adaptation rates) of the `intra_planar_flag` contexts.
pub const INTRA_PLANAR_FLAG_RATE: [u8; 2] = [1, 5];

/// sig_coeff_group_flag (SigCoeffGroup, luma set), 2 contexts
pub const SIG_GROUP_INIT_I: [u8; 2] = [18, 31];

/// Window sizes (adaptation rates) of the `sig_group` contexts.
pub const SIG_GROUP_RATE: [u8; 2] = [8, 5];

/// sig_coeff_flag (SigFlag, luma base set), 12 contexts
pub const SIG_FLAG_INIT_I: [u8; 12] = [25, 19, 28, 14, 25, 20, 29, 30, 19, 37, 30, 38];

/// Window sizes (adaptation rates) of the `sig_flag` contexts.
pub const SIG_FLAG_RATE: [u8; 12] = [12, 9, 9, 10, 9, 9, 9, 10, 8, 8, 8, 10];

/// par_level_flag (ParFlag, luma set), 21 contexts
pub const PAR_FLAG_INIT_I: [u8; 21] = [33, 25, 18, 26, 34, 27, 25, 26, 19, 42, 35, 33, 19, 27, 35, 35, 34, 42, 20, 43, 20];

/// Window sizes (adaptation rates) of the `par_flag` contexts.
pub const PAR_FLAG_RATE: [u8; 21] = [8, 9, 12, 13, 13, 13, 10, 13, 13, 13, 13, 13, 13, 13, 13, 13, 10, 13, 13, 13, 13];

/// abs_level_gt1_flag (GtxFlag[chType+2], luma), 21 contexts
pub const GT1_FLAG_INIT_I: [u8; 21] = [25, 25, 11, 27, 20, 21, 33, 12, 28, 21, 22, 34, 28, 29, 29, 30, 36, 29, 45, 30, 23];

/// Window sizes (adaptation rates) of the `gt1_flag` contexts.
pub const GT1_FLAG_RATE: [u8; 21] = [9, 5, 10, 13, 13, 10, 9, 10, 13, 13, 13, 9, 10, 10, 10, 13, 8, 9, 10, 10, 13];

/// abs_level_gt3_flag / "greater2" (GtxFlag[chType], luma), 21 contexts
pub const GT2_FLAG_INIT_I: [u8; 21] = [25, 1, 40, 25, 33, 11, 17, 25, 25, 18, 4, 17, 33, 26, 19, 13, 33, 19, 20, 28, 22];

/// Window sizes (adaptation rates) of the `gt2_flag` contexts.
pub const GT2_FLAG_RATE: [u8; 21] = [1, 5, 9, 9, 9, 6, 5, 9, 10, 10, 9, 9, 9, 9, 9, 9, 6, 8, 9, 9, 10];

/// last_sig_coeff_x_prefix (LastX, luma set), 20 contexts
pub const LAST_X_INIT_I: [u8; 20] = [13, 5, 4, 21, 14, 4, 6, 14, 21, 11, 14, 7, 14, 5, 11, 21, 30, 22, 13, 42];

/// Window sizes (adaptation rates) of the `last_x` contexts.
pub const LAST_X_RATE: [u8; 20] = [8, 5, 4, 5, 4, 4, 5, 4, 1, 0, 4, 1, 0, 0, 0, 0, 1, 0, 0, 0];

/// last_sig_coeff_y_prefix (LastY, luma set), 20 contexts
pub const LAST_Y_INIT_I: [u8; 20] = [13, 5, 4, 6, 13, 11, 14, 6, 5, 3, 14, 22, 6, 4, 3, 6, 22, 29, 20, 34];

/// Window sizes (adaptation rates) of the `last_y` contexts.
pub const LAST_Y_RATE: [u8; 20] = [8, 5, 8, 5, 5, 4, 5, 5, 4, 0, 5, 4, 1, 0, 0, 1, 4, 0, 0, 0];

/// I-slice initialisation values of the `qt_cbf_luma` contexts.
pub const QT_CBF_LUMA_INIT_I: [u8; 4] = [15, 12, 5, 7];

/// Window sizes (adaptation rates) of the `qt_cbf_luma` contexts.
pub const QT_CBF_LUMA_RATE: [u8; 4] = [5, 1, 8, 9];

/// I-slice initialisation values of the `sig_group_c` contexts.
pub const SIG_GROUP_C_INIT_I: [u8; 2] = [25, 15];

/// Window sizes (adaptation rates) of the `sig_group_c` contexts.
pub const SIG_GROUP_C_RATE: [u8; 2] = [5, 8];

/// I-slice initialisation values of the `sig_flag_c` contexts.
pub const SIG_FLAG_C_INIT_I: [u8; 8] = [25, 27, 28, 37, 34, 53, 53, 46];

/// Dependent-quantization state-dependent significance sets.
/// State group selects the set: max(0,state-1) -> 0 (above), 1 (st1), 2 (st2).
pub const SIG_FLAG_ST1_INIT_I: [u8; 12] = [11, 38, 46, 54, 27, 39, 39, 39, 44, 39, 39, 39];

/// Window sizes (adaptation rates) of the `sig_flag_st1` contexts.
pub const SIG_FLAG_ST1_RATE: [u8; 12] = [9, 13, 8, 8, 8, 8, 8, 5, 8, 0, 0, 0];

/// I-slice initialisation values of the `sig_flag_st2` contexts.
pub const SIG_FLAG_ST2_INIT_I: [u8; 12] = [18, 39, 39, 39, 27, 39, 39, 39, 0, 39, 39, 39];

/// Window sizes (adaptation rates) of the `sig_flag_st2` contexts.
pub const SIG_FLAG_ST2_RATE: [u8; 12] = [8, 8, 8, 8, 8, 0, 4, 4, 0, 0, 0, 0];

/// I-slice initialisation values of the `sig_flag_c_st1` contexts.
pub const SIG_FLAG_C_ST1_INIT_I: [u8; 8] = [19, 46, 38, 39, 52, 39, 39, 39];

/// Window sizes (adaptation rates) of the `sig_flag_c_st1` contexts.
pub const SIG_FLAG_C_ST1_RATE: [u8; 8] = [8, 12, 12, 8, 4, 0, 0, 0];

/// I-slice initialisation values of the `sig_flag_c_st2` contexts.
pub const SIG_FLAG_C_ST2_INIT_I: [u8; 8] = [11, 39, 39, 39, 19, 39, 39, 39];

/// Window sizes (adaptation rates) of the `sig_flag_c_st2` contexts.
pub const SIG_FLAG_C_ST2_RATE: [u8; 8] = [8, 8, 8, 8, 4, 0, 0, 0];

/// Window sizes (adaptation rates) of the `sig_flag_c` contexts.
pub const SIG_FLAG_C_RATE: [u8; 8] = [12, 12, 9, 13, 4, 5, 8, 9];

/// I-slice initialisation values of the `par_flag_c` contexts.
pub const PAR_FLAG_C_INIT_I: [u8; 11] = [33, 25, 26, 42, 19, 27, 26, 50, 35, 20, 43];

/// Window sizes (adaptation rates) of the `par_flag_c` contexts.
pub const PAR_FLAG_C_RATE: [u8; 11] = [8, 12, 12, 12, 13, 13, 13, 13, 13, 13, 13];

/// I-slice initialisation values of the `gt1_flag_c` contexts.
pub const GT1_FLAG_C_INIT_I: [u8; 11] = [40, 33, 27, 28, 21, 37, 36, 37, 45, 38, 46];

/// Window sizes (adaptation rates) of the `gt1_flag_c` contexts.
pub const GT1_FLAG_C_RATE: [u8; 11] = [8, 8, 9, 12, 12, 10, 5, 9, 9, 9, 13];

/// I-slice initialisation values of the `gt2_flag_c` contexts.
pub const GT2_FLAG_C_INIT_I: [u8; 11] = [40, 9, 25, 18, 26, 35, 25, 26, 35, 28, 37];

/// Window sizes (adaptation rates) of the `gt2_flag_c` contexts.
pub const GT2_FLAG_C_RATE: [u8; 11] = [1, 5, 8, 8, 9, 6, 6, 9, 8, 8, 9];

/// I-slice initialisation values of the `last_x_c` contexts.
pub const LAST_X_C_INIT_I: [u8; 3] = [12, 4, 3];

/// Window sizes (adaptation rates) of the `last_x_c` contexts.
pub const LAST_X_C_RATE: [u8; 3] = [5, 4, 4];

/// I-slice initialisation values of the `last_y_c` contexts.
pub const LAST_Y_C_INIT_I: [u8; 3] = [12, 4, 3];

/// Window sizes (adaptation rates) of the `last_y_c` contexts.
pub const LAST_Y_C_RATE: [u8; 3] = [6, 5, 5];

/// I-slice initialisation values of the `qt_cbf_cb` contexts.
pub const QT_CBF_CB_INIT_I: [u8; 2] = [12, 21];

/// Window sizes (adaptation rates) of the `qt_cbf_cb` contexts.
pub const QT_CBF_CB_RATE: [u8; 2] = [5, 0];

/// I-slice initialisation values of the `qt_cbf_cr` contexts.
pub const QT_CBF_CR_INIT_I: [u8; 3] = [33, 28, 36];

/// Window sizes (adaptation rates) of the `qt_cbf_cr` contexts.
pub const QT_CBF_CR_RATE: [u8; 3] = [2, 1, 0];

/// I-slice initialisation values of the `intra_chroma_mode` contexts.
pub const INTRA_CHROMA_MODE_INIT_I: [u8; 1] = [34];

/// Window sizes (adaptation rates) of the `intra_chroma_mode` contexts.
pub const INTRA_CHROMA_MODE_RATE: [u8; 1] = [5];

/// cclm_mode_flag (CclmModeFlag) + cclm_mode_idx (CclmModeIdx), 1 context each.
pub const CCLM_MODE_FLAG_INIT_I: [u8; 1] = [59];

/// Window sizes (adaptation rates) of the `cclm_mode_flag` contexts.
pub const CCLM_MODE_FLAG_RATE: [u8; 1] = [4];

/// I-slice initialisation values of the `cclm_mode_idx` contexts.
pub const CCLM_MODE_IDX_INIT_I: [u8; 1] = [27];

/// Window sizes (adaptation rates) of the `cclm_mode_idx` contexts.
pub const CCLM_MODE_IDX_RATE: [u8; 1] = [9];

/// sig_coeff_group_flag (TsSigCoeffGroup), indexed by neighbor-group count 0..2
pub const TS_SIG_GROUP_INIT_I: [u8; 3] = [18, 20, 38];

/// Window sizes (adaptation rates) of the `ts_sig_group` contexts.
pub const TS_SIG_GROUP_RATE: [u8; 3] = [5, 8, 8];

/// sig_coeff_flag (TsSigFlag), indexed by significant-neighbor count 0..2
pub const TS_SIG_FLAG_INIT_I: [u8; 3] = [25, 28, 38];

/// Window sizes (adaptation rates) of the `ts_sig_flag` contexts.
pub const TS_SIG_FLAG_RATE: [u8; 3] = [13, 13, 8];

/// par_level_flag (TsParFlag), 1 context
pub const TS_PAR_FLAG_INIT_I: [u8; 1] = [11];

/// Window sizes (adaptation rates) of the `ts_par_flag` contexts.
pub const TS_PAR_FLAG_RATE: [u8; 1] = [6];

/// abs_level_gtx_flag pass-2 (TsGtxFlag), index 0 unused (CNU/DWS)
pub const TS_GTX_FLAG_INIT_I: [u8; 5] = [35, 10, 3, 3, 3];

/// Window sizes (adaptation rates) of the `ts_gtx_flag` contexts.
pub const TS_GTX_FLAG_RATE: [u8; 5] = [8, 1, 1, 1, 1];

/// abs_level_gt1_flag pass-1 (TsLrg1Flag), indexed by neighbour count (3 = BDPCM)
pub const TS_LRG1_FLAG_INIT_I: [u8; 4] = [11, 5, 5, 14];

/// Window sizes (adaptation rates) of the `ts_lrg1_flag` contexts.
pub const TS_LRG1_FLAG_RATE: [u8; 4] = [4, 2, 1, 6];

/// coeff_sign_flag (TsResidualSign), 6 contexts (sign pattern, +3 for BDPCM)
pub const TS_SIGN_FLAG_INIT_I: [u8; 6] = [12, 17, 46, 28, 25, 46];

/// Window sizes (adaptation rates) of the `ts_sign_flag` contexts.
pub const TS_SIGN_FLAG_RATE: [u8; 6] = [1, 4, 4, 5, 8, 8];

/// mts_idx / transform_skip_flag (MTSIndex). Indices 4 (luma) and 5 (chroma)
/// carry the transform_skip_flag; the rest belong to the (unused) MTS index.
pub const MTS_INDEX_INIT_I: [u8; 6] = [29, 0, 28, 0, 25, 9];

/// Window sizes (adaptation rates) of the `mts_index` contexts.
pub const MTS_INDEX_RATE: [u8; 6] = [8, 0, 9, 0, 1, 1];

/// intra_bdpcm_*_flag / dir (BDPCMMode): 0/1 luma flag+dir, 2/3 chroma flag+dir
pub const BDPCM_MODE_INIT_I: [u8; 4] = [19, 35, 1, 27];

/// Window sizes (adaptation rates) of the `bdpcm_mode` contexts.
pub const BDPCM_MODE_RATE: [u8; 4] = [1, 4, 1, 0];

/// cu_qp_delta_abs: I-slice initialisation values (35, rate 8).
pub const CU_QP_DELTA_ABS_INIT_I: [u8; 2] = [35, 35];

/// Window sizes (adaptation rates) of the `cu_qp_delta_abs` contexts.
pub const CU_QP_DELTA_ABS_RATE: [u8; 2] = [8, 8];

/// All CABAC contexts used while coding slice data, initialised for one slice.
pub struct Contexts {
    pub split_flag: [CtxModel; 9],
    pub split_qt_flag: [CtxModel; 6],
    pub mtt_split_vertical: [CtxModel; 5],
    pub mtt_split_binary: [CtxModel; 4],
    pub intra_mpm_flag: [CtxModel; 1],
    pub intra_planar_flag: [CtxModel; 2],
    pub sig_group: [CtxModel; 2],
    pub sig_flag: [CtxModel; 12],
    pub par_flag: [CtxModel; 21],
    pub gt1_flag: [CtxModel; 21],
    pub gt2_flag: [CtxModel; 21],
    pub last_x: [CtxModel; 20],
    pub last_y: [CtxModel; 20],
    pub qt_cbf_luma: [CtxModel; 4],
    pub sig_group_c: [CtxModel; 2],
    pub sig_flag_c: [CtxModel; 8],
    pub sig_flag_st1: [CtxModel; 12],
    pub sig_flag_st2: [CtxModel; 12],
    pub sig_flag_c_st1: [CtxModel; 8],
    pub sig_flag_c_st2: [CtxModel; 8],
    pub par_flag_c: [CtxModel; 11],
    pub gt1_flag_c: [CtxModel; 11],
    pub gt2_flag_c: [CtxModel; 11],
    pub last_x_c: [CtxModel; 3],
    pub last_y_c: [CtxModel; 3],
    pub qt_cbf_cb: [CtxModel; 2],
    pub qt_cbf_cr: [CtxModel; 3],
    pub intra_chroma_mode: [CtxModel; 1],
    pub cclm_mode_flag: [CtxModel; 1],
    pub cclm_mode_idx: [CtxModel; 1],
    pub ts_sig_group: [CtxModel; 3],
    pub ts_sig_flag: [CtxModel; 3],
    pub ts_par_flag: [CtxModel; 1],
    pub ts_gtx_flag: [CtxModel; 5],
    pub ts_lrg1_flag: [CtxModel; 4],
    pub ts_sign_flag: [CtxModel; 6],
    pub mts_index: [CtxModel; 6],
    pub bdpcm_mode: [CtxModel; 4],
    pub cu_qp_delta_abs: [CtxModel; 2],
    pub lfnst_idx: [CtxModel; 3],
    pub mts_idx: [CtxModel; 4],
}

/// Initialise `out[i]` from `init[i]` and `rate[i]` at slice QP `qp`.
fn init_set<const N: usize>(out: &mut [CtxModel; N], init: &[u8; N], rate: &[u8; N], qp: u8)
    ensures
        forall|i: int|
            0 <= i < N ==> ctx_is_init(#[trigger] final(out)[i], init[i], qp, rate[i]),
{
    let mut i: usize = 0;
    while i < N
        invariant
            i <= N,
            forall|j: int| 0 <= j < i ==> ctx_is_init(#[trigger] out[j], init[j], qp, rate[j]),
        decreases N - i,
    {
        out[i] = CtxModel::init(init[i], qp, rate[i]);
        i += 1;
    }
}

/// Every context of `set` is initialised from the tables `init`/`rate` at `qp`.
pub open spec fn set_from_tables<const N: usize>(set: [CtxModel; N], init: [u8; N], rate: [u8; N], qp: u8) -> bool {
    forall|i: int| 0 <= i < N ==> ctx_is_init(#[trigger] set[i], init[i], qp, rate[i])
}

impl Contexts {
    /// The significance-flag context set selected by component and
    /// dependent-quantization state: `max(0, state - 1)` picks the base set
    /// (states 0/1), the state-2 set or the state-3 set.
    pub open spec fn sig_set(&self, luma: bool, state: u8) -> Seq<CtxModel> {
        let group: int = if state == 0 {
            0
        } else {
            state - 1
        };
        if luma {
            if group == 0 {
                self.sig_flag@
            } else if group == 1 {
                self.sig_flag_st1@
            } else {
                self.sig_flag_st2@
            }
        } else {
            if group == 0 {
                self.sig_flag_c@
            } else if group == 1 {
                self.sig_flag_c_st1@
            } else {
                self.sig_flag_c_st2@
            }
        }
    }

    /// Significance-flag context model for offset `idx` in the set selected
    /// by the component and the dependent-quantization state.
    pub fn sig_model(&mut self, luma: bool, state: u8, idx: usize) -> (r: &mut CtxModel)
        requires
            idx < (if luma {
                12int
            } else {
                8int
            }),
        ensures
            *r == old(self).sig_set(luma, state)[idx as int],
            final(self).sig_set(luma, state) == old(self).sig_set(luma, state).update(
                idx as int,
                *final(r),
            ),
    {
        let group = state.saturating_sub(1);
        if luma {
            if group == 0 {
                &mut self.sig_flag[idx]
            } else if group == 1 {
                &mut self.sig_flag_st1[idx]
            } else {
                &mut self.sig_flag_st2[idx]
            }
        } else {
            if group == 0 {
                &mut self.sig_flag_c[idx]
            } else if group == 1 {
                &mut self.sig_flag_c_st1[idx]
            } else {
                &mut self.sig_flag_c_st2[idx]
            }
        }
    }

    /// Initialise every slice-data context for an I-slice at luma QP `qp`.
    pub fn new_intra(qp: u8) -> (c: Self)
        ensures
            set_from_tables(c.split_flag, SPLIT_FLAG_INIT_I, SPLIT_FLAG_RATE, qp),
            set_from_tables(c.split_qt_flag, SPLIT_QT_FLAG_INIT_I, SPLIT_QT_FLAG_RATE, qp),
            set_from_tables(c.mtt_split_vertical, SPLIT_HV_FLAG_INIT_I, SPLIT_HV_FLAG_RATE, qp),
            set_from_tables(c.mtt_split_binary, SPLIT_12_FLAG_INIT_I, SPLIT_12_FLAG_RATE, qp),
            set_from_tables(c.intra_mpm_flag, INTRA_MPM_FLAG_INIT_I, INTRA_MPM_FLAG_RATE, qp),
            set_from_tables(c.intra_planar_flag, INTRA_PLANAR_FLAG_INIT_I, INTRA_PLANAR_FLAG_RATE, qp),
            set_from_tables(c.sig_group, SIG_GROUP_INIT_I, SIG_GROUP_RATE, qp),
            set_from_tables(c.sig_flag, SIG_FLAG_INIT_I, SIG_FLAG_RATE, qp),
            set_from_tables(c.par_flag, PAR_FLAG_INIT_I, PAR_FLAG_RATE, qp),
            set_from_tables(c.gt1_flag, GT1_FLAG_INIT_I, GT1_FLAG_RATE, qp),
            set_from_tables(c.gt2_flag, GT2_FLAG_INIT_I, GT2_FLAG_RATE, qp),
            set_from_tables(c.last_x, LAST_X_INIT_I, LAST_X_RATE, qp),
            set_from_tables(c.last_y, LAST_Y_INIT_I, LAST_Y_RATE, qp),
            set_from_tables(c.qt_cbf_luma, QT_CBF_LUMA_INIT_I, QT_CBF_LUMA_RATE, qp),
            set_from_tables(c.sig_group_c, SIG_GROUP_C_INIT_I, SIG_GROUP_C_RATE, qp),
            set_from_tables(c.sig_flag_c, SIG_FLAG_C_INIT_I, SIG_FLAG_C_RATE, qp),
            set_from_tables(c.sig_flag_st1, SIG_FLAG_ST1_INIT_I, SIG_FLAG_ST1_RATE, qp),
            set_from_tables(c.sig_flag_st2, SIG_FLAG_ST2_INIT_I, SIG_FLAG_ST2_RATE, qp),
            set_from_tables(c.sig_flag_c_st1, SIG_FLAG_C_ST1_INIT_I, SIG_FLAG_C_ST1_RATE, qp),
            set_from_tables(c.sig_flag_c_st2, SIG_FLAG_C_ST2_INIT_I, SIG_FLAG_C_ST2_RATE, qp),
            set_from_tables(c.par_flag_c, PAR_FLAG_C_INIT_I, PAR_FLAG_C_RATE, qp),
            set_from_tables(c.gt1_flag_c, GT1_FLAG_C_INIT_I, GT1_FLAG_C_RATE, qp),
            set_from_tables(c.gt2_flag_c, GT2_FLAG_C_INIT_I, GT2_FLAG_C_RATE, qp),
            set_from_tables(c.last_x_c, LAST_X_C_INIT_I, LAST_X_C_RATE, qp),
            set_from_tables(c.last_y_c, LAST_Y_C_INIT_I, LAST_Y_C_RATE, qp),
            set_from_tables(c.qt_cbf_cb, QT_CBF_CB_INIT_I, QT_CBF_CB_RATE, qp),
            set_from_tables(c.qt_cbf_cr, QT_CBF_CR_INIT_I, QT_CBF_CR_RATE, qp),
            set_from_tables(c.intra_chroma_mode, INTRA_CHROMA_MODE_INIT_I, INTRA_CHROMA_MODE_RATE, qp),
            set_from_tables(c.cclm_mode_flag, CCLM_MODE_FLAG_INIT_I, CCLM_MODE_FLAG_RATE, qp),
            set_from_tables(c.cclm_mode_idx, CCLM_MODE_IDX_INIT_I, CCLM_MODE_IDX_RATE, qp),
            set_from_tables(c.ts_sig_group, TS_SIG_GROUP_INIT_I, TS_SIG_GROUP_RATE, qp),
            set_from_tables(c.ts_sig_flag, TS_SIG_FLAG_INIT_I, TS_SIG_FLAG_RATE, qp),
            set_from_tables(c.ts_par_flag, TS_PAR_FLAG_INIT_I, TS_PAR_FLAG_RATE, qp),
            set_from_tables(c.ts_gtx_flag, TS_GTX_FLAG_INIT_I, TS_GTX_FLAG_RATE, qp),
            set_from_tables(c.ts_lrg1_flag, TS_LRG1_FLAG_INIT_I, TS_LRG1_FLAG_RATE, qp),
            set_from_tables(c.ts_sign_flag, TS_SIGN_FLAG_INIT_I, TS_SIGN_FLAG_RATE, qp),
            set_from_tables(c.mts_index, MTS_INDEX_INIT_I, MTS_INDEX_RATE, qp),
            set_from_tables(c.bdpcm_mode, BDPCM_MODE_INIT_I, BDPCM_MODE_RATE, qp),
            set_from_tables(c.cu_qp_delta_abs, CU_QP_DELTA_ABS_INIT_I, CU_QP_DELTA_ABS_RATE, qp),
            set_from_tables(c.lfnst_idx, LFNST_IDX_INIT_I, LFNST_IDX_RATE, qp),
            set_from_tables(c.mts_idx, MTS_IDX_INIT_I, MTS_IDX_RATE, qp),
    {
        let z = CtxModel { state: [0, 0], rate: 0 };
        let mut split_flag = [z; 9];
        init_set(&mut split_flag, &SPLIT_FLAG_INIT_I, &SPLIT_FLAG_RATE, qp);
        let mut split_qt_flag = [z; 6];
        init_set(&mut split_qt_flag, &SPLIT_QT_FLAG_INIT_I, &SPLIT_QT_FLAG_RATE, qp);
        let mut mtt_split_vertical = [z; 5];
        init_set(&mut mtt_split_vertical, &SPLIT_HV_FLAG_INIT_I, &SPLIT_HV_FLAG_RATE, qp);
        let mut mtt_split_binary = [z; 4];
        init_set(&mut mtt_split_binary, &SPLIT_12_FLAG_INIT_I, &SPLIT_12_FLAG_RATE, qp);
        let mut intra_mpm_flag = [z; 1];
        init_set(&mut intra_mpm_flag, &INTRA_MPM_FLAG_INIT_I, &INTRA_MPM_FLAG_RATE, qp);
        let mut intra_planar_flag = [z; 2];
        init_set(&mut intra_planar_flag, &INTRA_PLANAR_FLAG_INIT_I, &INTRA_PLANAR_FLAG_RATE, qp);
        let mut sig_group = [z; 2];
        init_set(&mut sig_group, &SIG_GROUP_INIT_I, &SIG_GROUP_RATE, qp);
        let mut sig_flag = [z; 12];
        init_set(&mut sig_flag, &SIG_FLAG_INIT_I, &SIG_FLAG_RATE, qp);
        let mut par_flag = [z; 21];
        init_set(&mut par_flag, &PAR_FLAG_INIT_I, &PAR_FLAG_RATE, qp);
        let mut gt1_flag = [z; 21];
        init_set(&mut gt1_flag, &GT1_FLAG_INIT_I, &GT1_FLAG_RATE, qp);
        let mut gt2_flag = [z; 21];
        init_set(&mut gt2_flag, &GT2_FLAG_INIT_I, &GT2_FLAG_RATE, qp);
        let mut last_x = [z; 20];
        init_set(&mut last_x, &LAST_X_INIT_I, &LAST_X_RATE, qp);
        let mut last_y = [z; 20];
        init_set(&mut last_y, &LAST_Y_INIT_I, &LAST_Y_RATE, qp);
        let mut qt_cbf_luma = [z; 4];
        init_set(&mut qt_cbf_luma, &QT_CBF_LUMA_INIT_I, &QT_CBF_LUMA_RATE, qp);
        let mut sig_group_c = [z; 2];
        init_set(&mut sig_group_c, &SIG_GROUP_C_INIT_I, &SIG_GROUP_C_RATE, qp);
        let mut sig_flag_c = [z; 8];
        init_set(&mut sig_flag_c, &SIG_FLAG_C_INIT_I, &SIG_FLAG_C_RATE, qp);
        let mut sig_flag_st1 = [z; 12];
        init_set(&mut sig_flag_st1, &SIG_FLAG_ST1_INIT_I, &SIG_FLAG_ST1_RATE, qp);
        let mut sig_flag_st2 = [z; 12];
        init_set(&mut sig_flag_st2, &SIG_FLAG_ST2_INIT_I, &SIG_FLAG_ST2_RATE, qp);
        let mut sig_flag_c_st1 = [z; 8];
        init_set(&mut sig_flag_c_st1, &SIG_FLAG_C_ST1_INIT_I, &SIG_FLAG_C_ST1_RATE, qp);
        let mut sig_flag_c_st2 = [z; 8];
        init_set(&mut sig_flag_c_st2, &SIG_FLAG_C_ST2_INIT_I, &SIG_FLAG_C_ST2_RATE, qp);
        let mut par_flag_c = [z; 11];
        init_set(&mut par_flag_c, &PAR_FLAG_C_INIT_I, &PAR_FLAG_C_RATE, qp);
        let mut gt1_flag_c = [z; 11];
        init_set(&mut gt1_flag_c, &GT1_FLAG_C_INIT_I, &GT1_FLAG_C_RATE, qp);
        let mut gt2_flag_c = [z; 11];
        init_set(&mut gt2_flag_c, &GT2_FLAG_C_INIT_I, &GT2_FLAG_C_RATE, qp);
        let mut last_x_c = [z; 3];
        init_set(&mut last_x_c, &LAST_X_C_INIT_I, &LAST_X_C_RATE, qp);
        let mut last_y_c = [z; 3];
        init_set(&mut last_y_c, &LAST_Y_C_INIT_I, &LAST_Y_C_RATE, qp);
        let mut qt_cbf_cb = [z; 2];
        init_set(&mut qt_cbf_cb, &QT_CBF_CB_INIT_I, &QT_CBF_CB_RATE, qp);
        let mut qt_cbf_cr = [z; 3];
        init_set(&mut qt_cbf_cr, &QT_CBF_CR_INIT_I, &QT_CBF_CR_RATE, qp);
        let mut intra_chroma_mode = [z; 1];
        init_set(&mut intra_chroma_mode, &INTRA_CHROMA_MODE_INIT_I, &INTRA_CHROMA_MODE_RATE, qp);
        let mut cclm_mode_flag = [z; 1];
        init_set(&mut cclm_mode_flag, &CCLM_MODE_FLAG_INIT_I, &CCLM_MODE_FLAG_RATE, qp);
        let mut cclm_mode_idx = [z; 1];
        init_set(&mut cclm_mode_idx, &CCLM_MODE_IDX_INIT_I, &CCLM_MODE_IDX_RATE, qp);
        let mut ts_sig_group = [z; 3];
        init_set(&mut ts_sig_group, &TS_SIG_GROUP_INIT_I, &TS_SIG_GROUP_RATE, qp);
        let mut ts_sig_flag = [z; 3];
        init_set(&mut ts_sig_flag, &TS_SIG_FLAG_INIT_I, &TS_SIG_FLAG_RATE, qp);
        let mut ts_par_flag = [z; 1];
        init_set(&mut ts_par_flag, &TS_PAR_FLAG_INIT_I, &TS_PAR_FLAG_RATE, qp);
        let mut ts_gtx_flag = [z; 5];
        init_set(&mut ts_gtx_flag, &TS_GTX_FLAG_INIT_I, &TS_GTX_FLAG_RATE, qp);
        let mut ts_lrg1_flag = [z; 4];
        init_set(&mut ts_lrg1_flag, &TS_LRG1_FLAG_INIT_I, &TS_LRG1_FLAG_RATE, qp);
        let mut ts_sign_flag = [z; 6];
        init_set(&mut ts_sign_flag, &TS_SIGN_FLAG_INIT_I, &TS_SIGN_FLAG_RATE, qp);
        let mut mts_index = [z; 6];
        init_set(&mut mts_index, &MTS_INDEX_INIT_I, &MTS_INDEX_RATE, qp);
        let mut bdpcm_mode = [z; 4];
        init_set(&mut bdpcm_mode, &BDPCM_MODE_INIT_I, &BDPCM_MODE_RATE, qp);
        let mut cu_qp_delta_abs = [z; 2];
        init_set(&mut cu_qp_delta_abs, &CU_QP_DELTA_ABS_INIT_I, &CU_QP_DELTA_ABS_RATE, qp);
        let mut lfnst_idx = [z; 3];
        init_set(&mut lfnst_idx, &LFNST_IDX_INIT_I, &LFNST_IDX_RATE, qp);
        let mut mts_idx = [z; 4];
        init_set(&mut mts_idx, &MTS_IDX_INIT_I, &MTS_IDX_RATE, qp);
        Contexts {
            split_flag,
            split_qt_flag,
            mtt_split_vertical,
            mtt_split_binary,
            intra_mpm_flag,
            intra_planar_flag,
            sig_group,
            sig_flag,
            par_flag,
            gt1_flag,
            gt2_flag,
            last_x,
            last_y,
            qt_cbf_luma,
            sig_group_c,
            sig_flag_c,
            sig_flag_st1,
            sig_flag_st2,
            sig_flag_c_st1,
            sig_flag_c_st2,
            par_flag_c,
            gt1_flag_c,
            gt2_flag_c,
            last_x_c,
            last_y_c,
            qt_cbf_cb,
            qt_cbf_cr,
            intra_chroma_mode,
            cclm_mode_flag,
            cclm_mode_idx,
            ts_sig_group,
            ts_sig_flag,
            ts_par_flag,
            ts_gtx_flag,
            ts_lrg1_flag,
            ts_sign_flag,
            mts_index,
            bdpcm_mode,
            cu_qp_delta_abs,
            lfnst_idx,
            mts_idx,
        }
    }
}

/// The significance contexts under dependent quantization (H.266: set
/// `max(0, state − 1)`): states 0 and 1 share the first set, state 2 uses
/// the second and state 3 the third, for luma and chroma alike.
pub proof fn lemma_sig_set_by_state(c: Contexts)
    ensures
        c.sig_set(true, 0) == c.sig_flag@ && c.sig_set(true, 1) == c.sig_flag@,
        c.sig_set(true, 2) == c.sig_flag_st1@ && c.sig_set(true, 3) == c.sig_flag_st2@,
        c.sig_set(false, 0) == c.sig_flag_c@ && c.sig_set(false, 1) == c.sig_flag_c@,
        c.sig_set(false, 2) == c.sig_flag_c_st1@ && c.sig_set(false, 3) == c.sig_flag_c_st2@,
{
}

} // verus!
