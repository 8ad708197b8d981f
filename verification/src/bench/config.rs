//! Sample budgets.

use vstd::prelude::*;

verus! {

/// Sample budgets for one suite pass. `full` matches released evidence;
/// `reduced` keeps structure and checksums intact for schema validation.
#[derive(Clone, Copy, Debug, PartialEq, Eq, Structural)]
pub struct SuiteConfig {
    pub gateway_iterations: u64,
    pub gateway_samples: usize,
    pub gateway_sample_after: u64,
    pub cancel_batches: u64,
    pub fifo_samples: usize,
    pub risk_samples: usize,
    pub risk_warmup: u64,
    pub price_samples: usize,
    pub plan_samples: usize,
    pub parser_samples: usize,
    pub spsc_samples: usize,
    pub mixed_commands: u64,
    pub mixed_warmup: u64,
    pub deep_samples: usize,
    pub tif_samples: usize,
}

impl SuiteConfig {
    /// The budgets of released evidence.
    pub open spec fn spec_full() -> SuiteConfig {
        SuiteConfig {
            gateway_iterations: 100_000,
            gateway_samples: 2_000,
            gateway_sample_after: 1_000,
            cancel_batches: 1_024,
            fifo_samples: 2_000,
            risk_samples: 256,
            risk_warmup: 64,
            price_samples: 2_000,
            plan_samples: 2_000,
            parser_samples: 2_000,
            spsc_samples: 2_000,
            mixed_commands: 20_000,
            mixed_warmup: 1_000,
            deep_samples: 2_000,
            tif_samples: 2_000,
        }
    }

    /// The budgets of schema validation.
    pub open spec fn spec_reduced() -> SuiteConfig {
        SuiteConfig {
            gateway_iterations: 2_000,
            gateway_samples: 100,
            gateway_sample_after: 100,
            cancel_batches: 4,
            fifo_samples: 100,
            risk_samples: 32,
            risk_warmup: 8,
            price_samples: 100,
            plan_samples: 100,
            parser_samples: 200,
            spsc_samples: 200,
            mixed_commands: 600,
            mixed_warmup: 100,
            deep_samples: 96,
            tif_samples: 96,
        }
    }

    #[must_use]
    pub fn full() -> (config: Self)
        ensures
            config == SuiteConfig::spec_full(),
    {
        SuiteConfig {
            gateway_iterations: 100_000,
            gateway_samples: 2_000,
            gateway_sample_after: 1_000,
            cancel_batches: 1_024,
            fifo_samples: 2_000,
            risk_samples: 256,
            risk_warmup: 64,
            price_samples: 2_000,
            plan_samples: 2_000,
            parser_samples: 2_000,
            spsc_samples: 2_000,
            mixed_commands: 20_000,
            mixed_warmup: 1_000,
            deep_samples: 2_000,
            tif_samples: 2_000,
        }
    }

    #[must_use]
    pub fn reduced() -> (config: Self)
        ensures
            config == SuiteConfig::spec_reduced(),
    {
        SuiteConfig {
            gateway_iterations: 2_000,
            gateway_samples: 100,
            gateway_sample_after: 100,
            cancel_batches: 4,
            fifo_samples: 100,
            risk_samples: 32,
            risk_warmup: 8,
            price_samples: 100,
            plan_samples: 100,
            parser_samples: 200,
            spsc_samples: 200,
            mixed_commands: 600,
            mixed_warmup: 100,
            deep_samples: 96,
            tif_samples: 96,
        }
    }
}

} // verus!
